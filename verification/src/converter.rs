//! Turning the rows of the feed into realtime messages.
use vstd::prelude::*;

use crate::assignments::{preferred_trip, remember, Assignment, CachedAssignment};
use crate::coordinates::is_number_text;
use crate::delay::parse_delay_seconds;
use crate::feed::StaticFeed;
use crate::groups::{group_live_rows, train_key};
use crate::index::{IndexedTrip, MartaScheduleIndex};
use crate::matcher::{match_train, MatcherConfig, TripMatch};
use crate::models::MartaTrainRow;
use crate::observation::row_fits;
use crate::ordered::sort_by_key;
use crate::realtime::{
    current_seconds, current_unix_i64, feed_header, FeedEntity, FeedEntityView, FeedMessage,
    FeedMessageView, Position, PositionView, StopTimeEvent, StopTimeUpdate, StopTimeUpdateView,
    TripDescriptor, TripDescriptorView, TripUpdate, TripUpdateView, VehicleDescriptor,
    VehicleDescriptorView, VehiclePosition, VehiclePositionView,
};
use crate::text::{parse_i64, trim};
use crate::time::{parse_event_time, parse_next_arrival, service_date};

verus! {

/// Where the rail arrival feed is.
pub const MARTA_RAIL_REALTIME_URL: &'static str =
    "https://developerservices.itsmarta.com:18096/itsmarta/railrealtimearrivals/developerservices/traindata";

/// The settings of a converter.
#[derive(Clone, Debug)]
pub struct MartaConfig {
    pub realtime_url: String,
    pub matcher: MatcherConfig,
    /// How long the trip of a train stays a hint. A train id can be reused when a train turns
    /// back, so a hint is checked against the stop order and the schedule before it is used.
    pub assignment_ttl_seconds: i64,
}

impl Default for MartaConfig {
    fn default() -> (config: Self)
        ensures
            config.realtime_url@ == MARTA_RAIL_REALTIME_URL@,
            config.matcher.max_mean_schedule_error_seconds == 8 * 60,
            config.matcher.max_stop_schedule_error_seconds == 15 * 60,
            config.matcher.cached_assignment_max_mean_error_seconds == 10 * 60,
            config.matcher.minimum_resolved_stops == 2,
            config.assignment_ttl_seconds == 20 * 60,
    {
        MartaConfig {
            realtime_url: MARTA_RAIL_REALTIME_URL.to_owned(),
            matcher: MatcherConfig::default(),
            assignment_ttl_seconds: 20 * 60,
        }
    }
}

/// What became of the rows of a conversion.
#[derive(Clone, Debug)]
pub struct MartaDiagnostics {
    pub received_rows: usize,
    pub ignored_non_realtime_rows: usize,
    pub matched_trains: usize,
    pub unmatched_trains: usize,
    pub unmatched_train_ids: Vec<String>,
}

/// What the diagnostics say.
pub struct MartaDiagnosticsView {
    pub received_rows: int,
    pub ignored_non_realtime_rows: int,
    pub matched_trains: int,
    pub unmatched_trains: int,
    pub unmatched_train_ids: Seq<Seq<char>>,
}

impl View for MartaDiagnostics {
    type V = MartaDiagnosticsView;

    open spec fn view(&self) -> MartaDiagnosticsView {
        MartaDiagnosticsView {
            received_rows: self.received_rows as int,
            ignored_non_realtime_rows: self.ignored_non_realtime_rows as int,
            matched_trains: self.matched_trains as int,
            unmatched_trains: self.unmatched_trains as int,
            unmatched_train_ids: crate::names::texts(self.unmatched_train_ids@),
        }
    }
}

impl Default for MartaDiagnostics {
    fn default() -> (diagnostics: Self)
        ensures
            diagnostics@ == (MartaDiagnosticsView {
                received_rows: 0,
                ignored_non_realtime_rows: 0,
                matched_trains: 0,
                unmatched_trains: 0,
                unmatched_train_ids: Seq::empty(),
            }),
    {
        let diagnostics = MartaDiagnostics {
            received_rows: 0,
            ignored_non_realtime_rows: 0,
            matched_trains: 0,
            unmatched_trains: 0,
            unmatched_train_ids: Vec::new(),
        };
        proof {
            assert(diagnostics@.unmatched_train_ids =~= Seq::<Seq<char>>::empty());
        }
        diagnostics
    }
}

/// The messages that a conversion gives.
#[derive(Clone, Debug)]
pub struct MartaGtfsRtResults {
    pub trip_updates: FeedMessage,
    pub vehicle_positions: FeedMessage,
    pub alerts: FeedMessage,
    pub diagnostics: MartaDiagnostics,
}

/// What the messages of a conversion say.
pub struct MartaGtfsRtResultsView {
    pub trip_updates: FeedMessageView,
    pub vehicle_positions: FeedMessageView,
    pub alerts: FeedMessageView,
    pub diagnostics: MartaDiagnosticsView,
}

impl View for MartaGtfsRtResults {
    type V = MartaGtfsRtResultsView;

    open spec fn view(&self) -> MartaGtfsRtResultsView {
        MartaGtfsRtResultsView {
            trip_updates: self.trip_updates@,
            vehicle_positions: self.vehicle_positions@,
            alerts: self.alerts@,
            diagnostics: self.diagnostics@,
        }
    }
}

/// The latest event of the first `count` rows, in seconds of the Unix era.
pub open spec fn latest_event(rows: Seq<MartaTrainRow>, count: int) -> Option<i64>
    decreases count,
{
    if count <= 0 {
        None
    } else {
        match (
            latest_event(rows, count - 1),
            crate::time::event_time(rows[count - 1].event_time@),
        ) {
            (Some(before), Some(event)) => Some(
                if event.unix > before {
                    event.unix
                } else {
                    before
                },
            ),
            (Some(before), None) => Some(before),
            (None, Some(event)) => Some(event.unix),
            (None, None) => None,
        }
    }
}

/// Finds the latest event of the rows.
pub fn find_latest_event(rows: &Vec<MartaTrainRow>) -> (result: Option<i64>)
    ensures
        result == latest_event(rows@, rows@.len() as int),
{
    let mut result: Option<i64> = None;
    for i in 0..rows.len()
        invariant
            result == latest_event(rows@, i as int),
    {
        if let Some(event) = parse_event_time(rows[i].event_time.as_str()) {
            result = match result {
                Some(before) => if event.unix > before {
                    Some(event.unix)
                } else {
                    Some(before)
                },
                None => Some(event.unix),
            };
        }
    }
    result
}

proof fn lemma_no_event(rows: Seq<MartaTrainRow>, count: int)
    requires
        latest_event(rows, count) is None,
    ensures
        forall|i: int|
            0 <= i < count ==> crate::time::event_time((#[trigger] rows[i]).event_time@) is None,
    decreases count,
{
    if count > 0 {
        lemma_no_event(rows, count - 1);
    }
}

/// The trimmed text of a coordinate, where it is a number.
pub open spec fn coordinate(text: Option<String>) -> Option<Seq<char>> {
    match text {
        Some(text) => if crate::coordinates::number_text(crate::text::trimmed(text@)) {
            Some(crate::text::trimmed(text@))
        } else {
            None
        },
        None => None,
    }
}

/// Reads a coordinate.
fn read_coordinate(text: &Option<String>) -> (result: Option<String>)
    ensures
        match result {
            Some(number) => coordinate(*text) == Some(number@),
            None => coordinate(*text) is None,
        },
{
    match text {
        Some(text) => {
            let number = trim(text.as_str());
            if is_number_text(number.as_str()) {
                Some(number)
            } else {
                None
            }
        },
        None => None,
    }
}

/// When and where a row saw its train, in seconds of the Unix era.
pub open spec fn sighting(row: MartaTrainRow) -> Option<(i64, PositionView)> {
    match (
        crate::time::event_time(row.event_time@),
        coordinate(row.latitude),
        coordinate(row.longitude),
    ) {
        (Some(event), Some(latitude), Some(longitude)) => Some(
            (event.unix, PositionView { latitude, longitude }),
        ),
        _ => None,
    }
}

/// The latest sighting of the first `count` rows; of several, the last.
pub open spec fn latest_sighting(rows: Seq<MartaTrainRow>, count: int) -> Option<
    (i64, PositionView),
>
    decreases count,
{
    if count <= 0 {
        None
    } else {
        match (latest_sighting(rows, count - 1), sighting(rows[count - 1])) {
            (Some(before), Some(seen)) => Some(
                if seen.0 >= before.0 {
                    seen
                } else {
                    before
                },
            ),
            (Some(before), None) => Some(before),
            (None, seen) => seen,
        }
    }
}

/// Where a train was last seen.
pub open spec fn last_position(rows: Seq<MartaTrainRow>) -> Option<PositionView> {
    match latest_sighting(rows, rows.len() as int) {
        Some(seen) => Some(seen.1),
        None => None,
    }
}

/// Reads when and where a row saw its train.
fn read_sighting(row: &MartaTrainRow) -> (result: Option<(i64, Position)>)
    ensures
        match result {
            Some(seen) => sighting(*row) == Some((seen.0, seen.1@)),
            None => sighting(*row) is None,
        },
{
    match parse_event_time(row.event_time.as_str()) {
        Some(event) => match read_coordinate(&row.latitude) {
            Some(latitude) => match read_coordinate(&row.longitude) {
                Some(longitude) => Some((event.unix, Position { latitude, longitude })),
                None => None,
            },
            None => None,
        },
        None => None,
    }
}

/// Finds where a train was last seen.
pub fn find_position(rows: &Vec<MartaTrainRow>) -> (result: Option<Position>)
    ensures
        match result {
            Some(position) => last_position(rows@) == Some(position@),
            None => last_position(rows@) is None,
        },
{
    let mut best: Option<(i64, Position)> = None;
    for i in 0..rows.len()
        invariant
            match best {
                Some(seen) => latest_sighting(rows@, i as int) == Some((seen.0, seen.1@)),
                None => latest_sighting(rows@, i as int) is None,
            },
    {
        if let Some(seen) = read_sighting(&rows[i]) {
            let later = match &best {
                Some(before) => seen.0 >= before.0,
                None => true,
            };
            if later {
                best = Some(seen);
            }
        }
    }
    match best {
        Some(seen) => Some(seen.1),
        None => None,
    }
}

/// The delay of a row, where it is a number of seconds that fits a message.
pub open spec fn message_delay(row: MartaTrainRow) -> Option<i32> {
    match crate::delay::delay_seconds(row.delay@) {
        Some(delay) => if i32::MIN <= delay <= i32::MAX {
            Some(delay as i32)
        } else {
            None
        },
        None => None,
    }
}

/// The update that a row gives for a stop of a trip.
pub open spec fn stop_update(
    row: MartaTrainRow,
    trip: IndexedTrip,
    stop: usize,
) -> StopTimeUpdateView {
    StopTimeUpdateView {
        stop_sequence: trip.stop_sequences@[stop as int],
        stop_id: trip.stop_ids@[stop as int]@,
        arrival: StopTimeEvent {
            delay: message_delay(row),
            time: (crate::observation::row_arrival(row)->0).unix,
        },
    }
}

/// The updates of a match, one for each of its rows.
pub open spec fn match_updates(
    rows: Seq<MartaTrainRow>,
    trip: IndexedTrip,
    positions: Seq<(usize, usize)>,
) -> Seq<StopTimeUpdateView> {
    Seq::new(
        positions.len(),
        |k: int| stop_update(rows[positions[k].0 as int], trip, positions[k].1),
    )
}

/// Makes the update that a row gives for a stop of a trip.
fn make_stop_update(row: &MartaTrainRow, trip: &IndexedTrip, stop: usize) -> (update: Option<
    StopTimeUpdate,
>)
    requires
        crate::observation::row_in_calendar(*row),
        stop < trip.stop_ids@.len(),
        stop < trip.stop_sequences@.len(),
    ensures
        match update {
            Some(update) => update@ == stop_update(*row, *trip, stop),
            None => crate::observation::row_arrival(*row) is None,
        },
{
    let event = match parse_event_time(row.event_time.as_str()) {
        Some(event) => event,
        None => return None,
    };
    let waiting = parse_i64(trim(row.waiting_seconds.as_str()).as_str());
    let arrival = match parse_next_arrival(&event, row.next_arr.as_str(), waiting) {
        Some(arrival) => arrival,
        None => return None,
    };
    let delay = match parse_delay_seconds(row.delay.as_str()) {
        Some(delay) => if i32::MIN as i64 <= delay && delay <= i32::MAX as i64 {
            Some(delay as i32)
        } else {
            None
        },
        None => None,
    };
    Some(
        StopTimeUpdate {
            stop_sequence: trip.stop_sequences[stop],
            stop_id: trip.stop_ids[stop].clone(),
            arrival: StopTimeEvent { delay, time: arrival.unix },
        },
    )
}

/// A trip on a day, as a message names it.
pub open spec fn described_trip(trip: IndexedTrip, date: i32) -> TripDescriptorView {
    TripDescriptorView {
        trip_id: trip.trip_id@,
        route_id: trip.route_id@,
        direction_id: trip.direction_id,
        start_date: crate::time::service_date_text(date),
    }
}

/// Names a trip on a day.
fn describe_trip(trip: &IndexedTrip, date: i32) -> (descriptor: TripDescriptor)
    requires
        crate::time::MIN_DAY <= date <= crate::time::MAX_DAY,
    ensures
        descriptor@ == described_trip(*trip, date),
{
    TripDescriptor {
        trip_id: trip.trip_id.clone(),
        route_id: trip.route_id.clone(),
        direction_id: trip.direction_id,
        start_date: service_date(date),
    }
}

/// A train, as a message names it.
pub open spec fn described_vehicle(train_id: Seq<char>) -> VehicleDescriptorView {
    VehicleDescriptorView { id: train_id, label: train_id }
}

/// Names a train.
fn describe_vehicle(train_id: &String) -> (descriptor: VehicleDescriptor)
    ensures
        descriptor@ == described_vehicle(train_id@),
{
    VehicleDescriptor { id: train_id.clone(), label: train_id.clone() }
}

/// The moment of a message, where it is in the Unix era.
pub open spec fn message_time(unix: i64) -> Option<u64> {
    if unix >= 0 {
        Some(unix as u64)
    } else {
        None
    }
}

/// Turns a moment into that of a message.
fn to_message_time(unix: i64) -> (result: Option<u64>)
    ensures
        result == message_time(unix),
{
    if unix >= 0 {
        Some(unix as u64)
    } else {
        None
    }
}

/// The id of an entity of a train.
pub open spec fn entity_id(train_id: Seq<char>, suffix: Seq<char>) -> Seq<char> {
    "marta-"@ + train_id + suffix
}

/// Makes the id of an entity of a train.
fn make_entity_id(train_id: &String, suffix: &str) -> (id: String)
    ensures
        id@ == entity_id(train_id@, suffix@),
{
    let mut id: String = "marta-".to_owned();
    id.append(train_id.as_str());
    id.append(suffix);
    id
}

/// The trip update of a train that is matched.
pub open spec fn trip_update_entity(
    rows: Seq<MartaTrainRow>,
    trip: IndexedTrip,
    found: TripMatch,
    latest: i64,
) -> FeedEntityView {
    let train_id = crate::groups::train_of(rows[0]).train_id;
    FeedEntityView {
        id: entity_id(train_id, "-tu"@),
        trip_update: Some(
            TripUpdateView {
                trip: described_trip(trip, found.date),
                vehicle: described_vehicle(train_id),
                stop_time_update: crate::ordered::key_sorted(
                    match_updates(rows, trip, found.positions),
                    crate::realtime::stop_order(),
                ),
                timestamp: message_time(latest),
            },
        ),
        vehicle: None,
    }
}

/// The vehicle position of a train that is matched.
pub open spec fn vehicle_entity(
    rows: Seq<MartaTrainRow>,
    trip: IndexedTrip,
    found: TripMatch,
    latest: i64,
) -> FeedEntityView {
    let train_id = crate::groups::train_of(rows[0]).train_id;
    FeedEntityView {
        id: entity_id(train_id, "-vp"@),
        trip_update: None,
        vehicle: Some(
            VehiclePositionView {
                trip: described_trip(trip, found.date),
                vehicle: described_vehicle(train_id),
                position: last_position(rows),
                timestamp: message_time(latest),
            },
        ),
    }
}

/// What a matched train gives: its entities, and the assignment to remember.
pub struct ConvertedTrain {
    pub trip_update: FeedEntity,
    pub vehicle: FeedEntity,
    pub assignment: CachedAssignment,
}

/// What a matched train gives.
pub struct ConvertedTrainView {
    pub trip_update: FeedEntityView,
    pub vehicle: FeedEntityView,
    pub assignment: Assignment,
}

impl View for ConvertedTrain {
    type V = ConvertedTrainView;

    open spec fn view(&self) -> ConvertedTrainView {
        ConvertedTrainView {
            trip_update: self.trip_update@,
            vehicle: self.vehicle@,
            assignment: self.assignment@,
        }
    }
}

/// What the rows of a train give, where it is matched.
#[verifier::opaque]
pub open spec fn converted_train(
    index: MartaScheduleIndex,
    matcher: MatcherConfig,
    ttl: i64,
    assigned: Map<Seq<char>, Assignment>,
    rows: Seq<MartaTrainRow>,
) -> Option<ConvertedTrainView> {
    let train = crate::groups::train_of(rows[0]);
    match latest_event(rows, rows.len() as int) {
        None => None,
        Some(latest) => match crate::matcher::train_match(
            index,
            rows,
            matcher,
            crate::assignments::preferred(assigned, train, latest, ttl),
        ) {
            None => None,
            Some(found) => {
                let trip = index.trips@[found.trip as int];
                Some(
                    ConvertedTrainView {
                        trip_update: trip_update_entity(rows, trip, found, latest),
                        vehicle: vehicle_entity(rows, trip, found, latest),
                        assignment: Assignment {
                            trip: found.trip,
                            date: found.date,
                            line: train.line,
                            direction: train.direction,
                            destination: train.destination,
                            last_seen: latest,
                        },
                    },
                )
            },
        },
    }
}

/// Makes the updates of a match, in the order of the stops.
fn make_stop_updates(
    rows: &Vec<MartaTrainRow>,
    trip: &IndexedTrip,
    positions: &Vec<(usize, usize)>,
) -> (result: Vec<StopTimeUpdate>)
    requires
        forall|k: int|
            0 <= k < positions@.len() ==> {
                let pair = #[trigger] positions@[k];
                &&& pair.0 < rows@.len()
                &&& crate::observation::row_in_calendar(rows@[pair.0 as int])
                &&& crate::observation::row_arrival(rows@[pair.0 as int]) is Some
                &&& pair.1 < trip.stop_ids@.len()
                &&& pair.1 < trip.stop_sequences@.len()
            },
    ensures
        crate::realtime::update_views(result@) == crate::ordered::key_sorted(
            match_updates(rows@, *trip, positions@),
            crate::realtime::stop_order(),
        ),
{
    let ghost all = match_updates(rows@, *trip, positions@);
    let mut updates: Vec<StopTimeUpdate> = Vec::new();
    proof {
        assert(crate::realtime::update_views(updates@) =~= all.take(0));
    }
    for i in 0..positions.len()
        invariant
            all == match_updates(rows@, *trip, positions@),
            crate::realtime::update_views(updates@) == all.take(i as int),
            forall|k: int|
                0 <= k < positions@.len() ==> {
                    let pair = #[trigger] positions@[k];
                    &&& pair.0 < rows@.len()
                    &&& crate::observation::row_in_calendar(rows@[pair.0 as int])
                    &&& crate::observation::row_arrival(rows@[pair.0 as int]) is Some
                    &&& pair.1 < trip.stop_ids@.len()
                    &&& pair.1 < trip.stop_sequences@.len()
                },
    {
        let (row, stop) = positions[i];
        if let Some(update) = make_stop_update(&rows[row], trip, stop) {
            let ghost before = crate::realtime::update_views(updates@);
            updates.push(update);
            proof {
                assert(crate::realtime::update_views(updates@) =~= before.push(update@));
                assert(all.take(i + 1) =~= all.take(i as int).push(all[i as int]));
            }
        }
    }
    proof {
        assert(all.take(positions@.len() as int) =~= all);
        crate::ordered::sorting_images(
            updates@,
            crate::ordered::sort_keys::<StopTimeUpdate>(),
            |update: StopTimeUpdate| update@,
            crate::realtime::stop_order(),
        );
    }
    sort_by_key(updates)
}

/// Every row of a match is one that was read, at a stop of the trip.
proof fn lemma_match_rows(
    index: MartaScheduleIndex,
    rows: Seq<MartaTrainRow>,
    matcher: MatcherConfig,
    preferred: Option<(usize, i32)>,
)
    requires
        index.valid(),
        rows.len() <= usize::MAX,
        crate::matcher::train_match(index, rows, matcher, preferred) is Some,
    ensures
        ({
            let found = crate::matcher::train_match(index, rows, matcher, preferred)->0;
            let trip = index.trips@[found.trip as int];
            &&& found.trip < index.trips@.len()
            &&& crate::index::service_runs(index.services@, trip.service_id@, found.date)
            &&& forall|k: int|
                0 <= k < found.positions.len() ==> {
                    let pair = #[trigger] found.positions[k];
                    &&& pair.0 < rows.len()
                    &&& crate::observation::row_arrival(rows[pair.0 as int]) is Some
                    &&& pair.1 < trip.stop_ids@.len()
                    &&& pair.1 < trip.stop_sequences@.len()
                }
        }),
{
    reveal(crate::observation::observed_row);
    let table = index.station_aliases@;
    let stops = crate::observation::train_stops(table, rows);
    let search = crate::matcher::train_search(index, rows, matcher);
    let found = search.outcome(preferred)->0;
    crate::observation::train_stops_are_rows(table, rows);
    assert forall|k: int| 0 <= k < stops.len() implies 0 <= (#[trigger] stops[k]).row
        <= usize::MAX by {
        assert(crate::observation::is_row(table, rows, stops[k]));
    }
    crate::guarantees::match_is_sound(search, preferred);
    let trip = index.trips@[found.trip as int];
    assert forall|k: int| 0 <= k < found.positions.len() implies ({
        let pair = #[trigger] found.positions[k];
        &&& pair.0 < rows.len()
        &&& crate::observation::row_arrival(rows[pair.0 as int]) is Some
        &&& pair.1 < trip.stop_ids@.len()
        &&& pair.1 < trip.stop_sequences@.len()
    }) by {
        assert(crate::observation::is_row(table, rows, stops[k]));
        assert(found.positions[k].0 == stops[k].row);
    }
}

/// Turns the rows of a train into its entities, where it is matched. Where no event time can be
/// read, `fallback` stands in for the latest; the outcome does not depend on it.
pub fn convert_train(
    index: &MartaScheduleIndex,
    matcher: &MatcherConfig,
    ttl: i64,
    cache: &Vec<CachedAssignment>,
    rows: &Vec<MartaTrainRow>,
    fallback: i64,
) -> (result: Option<ConvertedTrain>)
    requires
        index.valid(),
        crate::assignments::one_each(cache@),
        rows@.len() > 0,
        forall|i: int|
            0 <= i < rows@.len() ==> crate::observation::row_in_calendar(#[trigger] rows@[i]),
    ensures
        ({
            let expected = converted_train(
                *index,
                *matcher,
                ttl,
                crate::assignments::assigned(cache@),
                rows@,
            );
            match result {
                Some(train) => expected == Some(train@) && train.assignment.train_id@
                    == crate::groups::train_of(rows@[0]).train_id,
                None => expected is None,
            }
        }),
{
    proof {
        reveal(converted_train);
    }
    let train = train_key(&rows[0]);
    let latest = match find_latest_event(rows) {
        Some(latest) => latest,
        None => fallback,
    };
    let preferred = preferred_trip(cache, &train, latest, ttl);
    proof {
        if latest_event(rows@, rows@.len() as int) is None {
            no_event_no_train(*index, rows@, *matcher, preferred);
        }
    }
    let found = match match_train(index, rows, matcher, preferred) {
        Some(found) => found,
        None => return None,
    };
    let row_count: usize = rows.len();
    proof {
        lemma_match_rows(*index, rows@, *matcher, preferred);
    }
    let trip = &index.trips[found.trip_index];
    proof {
        let at = choose|at: int|
            0 <= at < index.services@.len() && (#[trigger] index.services@[at]).service_id@
                == trip.service_id@ && index.services@[at].rule.runs(found.service_date);
        assert(index.services@[at].rule.in_calendar());
        index.services@[at].rule.runs_in_calendar(found.service_date);
    }
    let stop_time_update = make_stop_updates(rows, trip, &found.row_stop_positions);
    let trip_update = FeedEntity {
        id: make_entity_id(&train.train_id, "-tu"),
        trip_update: Some(
            TripUpdate {
                trip: describe_trip(trip, found.service_date),
                vehicle: describe_vehicle(&train.train_id),
                stop_time_update,
                timestamp: to_message_time(latest),
            },
        ),
        vehicle: None,
    };
    let vehicle = FeedEntity {
        id: make_entity_id(&train.train_id, "-vp"),
        trip_update: None,
        vehicle: Some(
            VehiclePosition {
                trip: describe_trip(trip, found.service_date),
                vehicle: describe_vehicle(&train.train_id),
                position: find_position(rows),
                timestamp: to_message_time(latest),
            },
        ),
    };
    let assignment = CachedAssignment {
        train_id: train.train_id,
        trip_index: found.trip_index,
        service_date: found.service_date,
        line: train.line,
        direction: train.direction,
        destination: train.destination,
        last_seen_unix: latest,
    };
    Some(ConvertedTrain { trip_update, vehicle, assignment })
}

/// A train none of whose rows has an event time that can be read is not matched, whatever moment
/// would stand in for its latest event.
pub proof fn no_event_no_train(
    index: MartaScheduleIndex,
    rows: Seq<MartaTrainRow>,
    matcher: MatcherConfig,
    preferred: Option<(usize, i32)>,
)
    requires
        latest_event(rows, rows.len() as int) is None,
    ensures
        crate::matcher::train_match(index, rows, matcher, preferred) is None,
{
    lemma_no_event(rows, rows.len() as int);
    crate::guarantees::no_event_no_match(index, rows, matcher, preferred);
}

/// What the trains give: their entities, the ids of those that were not matched, and the
/// assignments afterwards.
pub struct Conversion {
    pub trip_updates: Seq<FeedEntityView>,
    pub vehicles: Seq<FeedEntityView>,
    pub unmatched: Seq<Seq<char>>,
    pub assigned: Map<Seq<char>, Assignment>,
}

/// What the trains before and one more give: a train that is matched is assigned its trip, and
/// assignments that are too old by then are dropped.
pub open spec fn with_train(
    index: MartaScheduleIndex,
    matcher: MatcherConfig,
    ttl: i64,
    before: Conversion,
    rows: Seq<MartaTrainRow>,
) -> Conversion {
    let train_id = crate::groups::train_of(rows[0]).train_id;
    match converted_train(index, matcher, ttl, before.assigned, rows) {
        Some(train) => Conversion {
            trip_updates: before.trip_updates.push(train.trip_update),
            vehicles: before.vehicles.push(train.vehicle),
            unmatched: before.unmatched,
            assigned: crate::assignments::kept(
                before.assigned.insert(train_id, train.assignment),
                train.assignment.last_seen,
                ttl,
            ),
        },
        None => Conversion { unmatched: before.unmatched.push(train_id), ..before },
    }
}

/// What the first `count` trains give, one after the other.
pub open spec fn conversion(
    index: MartaScheduleIndex,
    matcher: MatcherConfig,
    ttl: i64,
    assigned: Map<Seq<char>, Assignment>,
    groups: Seq<Seq<MartaTrainRow>>,
    count: int,
) -> Conversion
    decreases count,
{
    if count <= 0 {
        Conversion {
            trip_updates: Seq::empty(),
            vehicles: Seq::empty(),
            unmatched: Seq::empty(),
            assigned,
        }
    } else {
        with_train(
            index,
            matcher,
            ttl,
            conversion(index, matcher, ttl, assigned, groups, count - 1),
            groups[count - 1],
        )
    }
}

/// The entities of trains that were matched, and the ids of those that were not.
struct Entities {
    trip_updates: Vec<FeedEntity>,
    vehicles: Vec<FeedEntity>,
    unmatched: Vec<String>,
}

impl Entities {
    /// What the entities and a cache of assignments say.
    spec fn conversion(&self, cache: Seq<CachedAssignment>) -> Conversion {
        Conversion {
            trip_updates: crate::realtime::entity_views(self.trip_updates@),
            vehicles: crate::realtime::entity_views(self.vehicles@),
            unmatched: crate::names::texts(self.unmatched@),
            assigned: crate::assignments::assigned(cache),
        }
    }

    /// Converts one more train.
    fn add_train(
        &mut self,
        index: &MartaScheduleIndex,
        matcher: &MatcherConfig,
        ttl: i64,
        cache: &mut Vec<CachedAssignment>,
        rows: &Vec<MartaTrainRow>,
        fallback: i64,
    )
        requires
            index.valid(),
            crate::assignments::one_each(old(cache)@),
            rows@.len() > 0,
            forall|i: int|
                0 <= i < rows@.len() ==> crate::observation::row_in_calendar(#[trigger] rows@[i]),
        ensures
            crate::assignments::one_each(final(cache)@),
            final(self).conversion(final(cache)@) == with_train(
                *index,
                *matcher,
                ttl,
                old(self).conversion(old(cache)@),
                rows@,
            ),
    {
        let ghost before = self.conversion(cache@);
        match convert_train(index, matcher, ttl, cache, rows, fallback) {
            Some(train) => {
                let ghost given = train@;
                self.trip_updates.push(train.trip_update);
                self.vehicles.push(train.vehicle);
                remember(cache, train.assignment, ttl);
                proof {
                    assert(crate::realtime::entity_views(self.trip_updates@)
                        =~= before.trip_updates.push(given.trip_update));
                    assert(crate::realtime::entity_views(self.vehicles@) =~= before.vehicles.push(
                        given.vehicle,
                    ));
                }
            },
            None => {
                let key = train_key(&rows[0]);
                self.unmatched.push(key.train_id);
                proof {
                    assert(crate::names::texts(self.unmatched@) =~= before.unmatched.push(
                        crate::groups::train_of(rows@[0]).train_id,
                    ));
                }
            },
        }
    }
}

/// The messages of a conversion, made at a moment.
pub open spec fn messages(
    rows: Seq<MartaTrainRow>,
    conversion: Conversion,
    timestamp: u64,
) -> MartaGtfsRtResultsView {
    let header = crate::realtime::header_at(timestamp);
    MartaGtfsRtResultsView {
        trip_updates: FeedMessageView { header, entity: conversion.trip_updates },
        vehicle_positions: FeedMessageView { header, entity: conversion.vehicles },
        alerts: FeedMessageView { header, entity: Seq::empty() },
        diagnostics: MartaDiagnosticsView {
            received_rows: rows.len() as int,
            ignored_non_realtime_rows: crate::groups::not_live(rows),
            matched_trains: conversion.trip_updates.len() as int,
            unmatched_trains: conversion.unmatched.len() as int,
            unmatched_train_ids: conversion.unmatched,
        },
    }
}

/// The times of every live row stay in the calendar, and its delay in the range of seconds.
pub open spec fn rows_in_calendar(rows: Seq<MartaTrainRow>) -> bool {
    forall|i: int|
        0 <= i < rows.len() && crate::models::live(#[trigger] rows[i])
            ==> crate::observation::row_in_calendar(rows[i])
}

/// Whether the times of every live row stay in the calendar, and its delay in the range of
/// seconds.
pub fn rows_fit(rows: &Vec<MartaTrainRow>) -> (answer: bool)
    ensures
        answer == rows_in_calendar(rows@),
{
    for i in 0..rows.len()
        invariant
            forall|k: int|
                0 <= k < i && crate::models::live(#[trigger] rows@[k])
                    ==> crate::observation::row_in_calendar(rows@[k]),
    {
        if rows[i].is_live() && !row_fits(&rows[i]) {
            return false;
        }
    }
    true
}

proof fn lemma_grouped_rows(rows: Seq<MartaTrainRow>)
    requires
        rows_in_calendar(rows),
    ensures
        forall|g: int, i: int|
            0 <= g < crate::groups::live_groups(rows).len() && 0 <= i
                < crate::groups::live_groups(rows)[g].len() ==> crate::observation::row_in_calendar(
                #[trigger] crate::groups::live_groups(rows)[g][i],
            ),
        forall|g: int|
            0 <= g < crate::groups::live_groups(rows).len() ==> (
            #[trigger] crate::groups::live_groups(rows)[g]).len() > 0,
{
    let groups = crate::groups::live_groups(rows);
    crate::groups::groups_partition(rows);
    assert forall|g: int, i: int|
        0 <= g < groups.len() && 0 <= i < groups[g].len() implies
        crate::observation::row_in_calendar(#[trigger] groups[g][i]) by {
        let train = crate::groups::train_of(groups[g][0]);
        assert(groups[g] == crate::groups::rows_of(rows, train));
        let keep = |row: MartaTrainRow|
            crate::models::live(row) && crate::groups::train_of(row) == train;
        crate::sequences::lemma_filter_member(rows, keep, i);
        let k = choose|k: int| 0 <= k < rows.len() && rows[k] == groups[g][i];
        assert(crate::models::live(rows[k]));
    }
}

/// A converter that keeps the schedule index and the assignments of trains between polls.
pub struct MartaGtfsRt {
    pub index: MartaScheduleIndex,
    pub config: MartaConfig,
    pub assignments: Vec<CachedAssignment>,
}

impl MartaGtfsRt {
    /// The index is valid, and no train has two assignments.
    pub open spec fn valid(&self) -> bool {
        self.index.valid() && crate::assignments::one_each(self.assignments@)
    }

    /// The assignment of each train.
    pub open spec fn assigned(&self) -> Map<Seq<char>, Assignment> {
        crate::assignments::assigned(self.assignments@)
    }

    /// What the rows give.
    pub open spec fn conversion_of(&self, rows: Seq<MartaTrainRow>) -> Conversion {
        let groups = crate::groups::live_groups(rows);
        conversion(
            self.index,
            self.config.matcher,
            self.config.assignment_ttl_seconds,
            self.assigned(),
            groups,
            groups.len() as int,
        )
    }

    /// The trip on which a train is looked for first.
    pub open spec fn hint(&self, rows: Seq<MartaTrainRow>) -> Option<(usize, i32)> {
        match latest_event(rows, rows.len() as int) {
            Some(latest) => crate::assignments::preferred(
                self.assigned(),
                crate::groups::train_of(rows[0]),
                latest,
                self.config.assignment_ttl_seconds,
            ),
            None => None,
        }
    }

    /// Whether a train fits no trip that it is looked for on first.
    pub open spec fn without_fitting_hint(&self, rows: Seq<MartaTrainRow>) -> bool {
        crate::agreement::hint_fails(self.index, rows, self.config.matcher, self.hint(rows))
    }

    /// Makes a converter for a schedule, with the default settings.
    pub fn new(feed: &StaticFeed) -> (converter: Self)
        requires
            crate::builder::indexable(feed),
        ensures
            converter.valid(),
            converter.index.holds(feed),
            converter.config.realtime_url@ == MARTA_RAIL_REALTIME_URL@,
            converter.config.matcher.max_mean_schedule_error_seconds == 8 * 60,
            converter.config.matcher.max_stop_schedule_error_seconds == 15 * 60,
            converter.config.matcher.cached_assignment_max_mean_error_seconds == 10 * 60,
            converter.config.matcher.minimum_resolved_stops == 2,
            converter.config.assignment_ttl_seconds == 20 * 60,
            converter.assigned() == Map::<Seq<char>, Assignment>::empty(),
    {
        MartaGtfsRt::with_config(feed, MartaConfig::default())
    }

    /// Makes a converter for a schedule.
    pub fn with_config(feed: &StaticFeed, config: MartaConfig) -> (converter: Self)
        requires
            crate::builder::indexable(feed),
        ensures
            converter.valid(),
            converter.index.holds(feed),
            converter.config == config,
            converter.assigned() == Map::<Seq<char>, Assignment>::empty(),
    {
        let converter = MartaGtfsRt {
            index: MartaScheduleIndex::build(feed),
            config,
            assignments: Vec::new(),
        };
        proof {
            assert(converter.assigned() =~= Map::<Seq<char>, Assignment>::empty());
        }
        converter
    }

    /// The schedule index.
    pub fn index(&self) -> (index: &MartaScheduleIndex)
        ensures
            *index == self.index,
    {
        &self.index
    }

    /// Turns rows into messages made at a moment, in seconds of the Unix era. `fallback` stands
    /// in for the latest event of a train where none can be read; nothing depends on it.
    pub fn process_rows_at(
        &mut self,
        rows: Vec<MartaTrainRow>,
        timestamp: u64,
        fallback: i64,
    ) -> (results: MartaGtfsRtResults)
        requires
            old(self).valid(),
            rows_in_calendar(rows@),
        ensures
            final(self).valid(),
            final(self).index == old(self).index,
            final(self).config == old(self).config,
            final(self).assigned() == old(self).conversion_of(rows@).assigned,
            results@ == messages(rows@, old(self).conversion_of(rows@), timestamp),
    {
        let ghost all = rows@;
        let ghost index = self.index;
        let ghost matcher = self.config.matcher;
        let ghost start = self.assigned();
        let ttl = self.config.assignment_ttl_seconds;
        let received_rows = rows.len();
        let (groups, ignored_non_realtime_rows) = group_live_rows(rows);
        let ghost trains = crate::groups::row_groups(groups@);
        let mut entities = Entities {
            trip_updates: Vec::new(),
            vehicles: Vec::new(),
            unmatched: Vec::new(),
        };
        proof {
            lemma_grouped_rows(all);
            let none = entities.conversion(self.assignments@);
            assert(none.trip_updates =~= Seq::<FeedEntityView>::empty());
            assert(none.vehicles =~= Seq::<FeedEntityView>::empty());
            assert(none.unmatched =~= Seq::<Seq<char>>::empty());
        }
        for i in 0..groups.len()
            invariant
                self.valid(),
                self.index == index,
                self.config == old(self).config,
                matcher == self.config.matcher,
                ttl == self.config.assignment_ttl_seconds,
                trains == crate::groups::row_groups(groups@),
                trains == crate::groups::live_groups(all),
                forall|g: int, k: int|
                    0 <= g < trains.len() && 0 <= k < trains[g].len()
                        ==> crate::observation::row_in_calendar(#[trigger] trains[g][k]),
                forall|g: int| 0 <= g < trains.len() ==> (#[trigger] trains[g]).len() > 0,
                entities.conversion(self.assignments@) == conversion(
                    index,
                    matcher,
                    ttl,
                    start,
                    trains,
                    i as int,
                ),
        {
            let group = &groups[i];
            proof {
                assert(trains[i as int] == group@);
                assert(trains[i as int].len() > 0);
                assert forall|k: int| 0 <= k < group@.len() implies
                    crate::observation::row_in_calendar(#[trigger] group@[k]) by {
                    assert(trains[i as int][k] == group@[k]);
                }
            }
            entities.add_train(
                &self.index,
                &self.config.matcher,
                ttl,
                &mut self.assignments,
                group,
                fallback,
            );
        }
        let matched_trains = entities.trip_updates.len();
        let unmatched_trains = entities.unmatched.len();
        let alerts: Vec<FeedEntity> = Vec::new();
        proof {
            assert(crate::realtime::entity_views(alerts@) =~= Seq::<FeedEntityView>::empty());
        }
        MartaGtfsRtResults {
            trip_updates: FeedMessage {
                header: feed_header(timestamp),
                entity: entities.trip_updates,
            },
            vehicle_positions: FeedMessage {
                header: feed_header(timestamp),
                entity: entities.vehicles,
            },
            alerts: FeedMessage { header: feed_header(timestamp), entity: alerts },
            diagnostics: MartaDiagnostics {
                received_rows,
                ignored_non_realtime_rows,
                matched_trains,
                unmatched_trains,
                unmatched_train_ids: entities.unmatched,
            },
        }
    }

    /// Turns rows into messages made now. The contract names the moment of the messages by
    /// their own head; nothing is claimed of it.
    pub fn process_rows(&mut self, rows: Vec<MartaTrainRow>) -> (results: MartaGtfsRtResults)
        requires
            old(self).valid(),
            rows_in_calendar(rows@),
        ensures
            final(self).valid(),
            final(self).index == old(self).index,
            final(self).config == old(self).config,
            final(self).assigned() == old(self).conversion_of(rows@).assigned,
            results@ == messages(
                rows@,
                old(self).conversion_of(rows@),
                results.trip_updates.header.timestamp,
            ),
    {
        let fallback = current_unix_i64();
        let timestamp = current_seconds();
        self.process_rows_at(rows, timestamp, fallback)
    }

    /// Turns rows into messages made now, unless a time of a live row leaves the calendar or its
    /// delay the range of seconds: nothing changes where one does.
    pub fn try_process_rows(&mut self, rows: Vec<MartaTrainRow>) -> (results: Option<
        MartaGtfsRtResults,
    >)
        requires
            old(self).valid(),
        ensures
            final(self).valid(),
            final(self).index == old(self).index,
            final(self).config == old(self).config,
            match results {
                Some(results) => {
                    &&& rows_in_calendar(rows@)
                    &&& final(self).assigned() == old(self).conversion_of(rows@).assigned
                    &&& results@ == messages(
                        rows@,
                        old(self).conversion_of(rows@),
                        results.trip_updates.header.timestamp,
                    )
                },
                None => !rows_in_calendar(rows@) && *final(self) == *old(self),
            },
    {
        if rows_fit(&rows) {
            Some(self.process_rows(rows))
        } else {
            None
        }
    }
}

proof fn lemma_conversion_counts(
    index: MartaScheduleIndex,
    matcher: MatcherConfig,
    ttl: i64,
    assigned: Map<Seq<char>, Assignment>,
    groups: Seq<Seq<MartaTrainRow>>,
    count: int,
)
    requires
        0 <= count <= groups.len(),
    ensures
        ({
            let done = conversion(index, matcher, ttl, assigned, groups, count);
            &&& done.trip_updates.len() + done.unmatched.len() == count
            &&& done.vehicles.len() == done.trip_updates.len()
            &&& forall|k: int|
                0 <= k < done.trip_updates.len() ==> same_train(
                    #[trigger] done.trip_updates[k],
                    done.vehicles[k],
                )
        }),
    decreases count,
{
    reveal(converted_train);
    if count > 0 {
        lemma_conversion_counts(index, matcher, ttl, assigned, groups, count - 1);
    }
}

/// Whether a trip update and a vehicle position are of one train on one trip, at one moment.
pub open spec fn same_train(update: FeedEntityView, vehicle: FeedEntityView) -> bool {
    &&& update.trip_update is Some && update.vehicle is None
    &&& vehicle.vehicle is Some && vehicle.trip_update is None
    &&& (update.trip_update->0).trip == (vehicle.vehicle->0).trip
    &&& (update.trip_update->0).vehicle == (vehicle.vehicle->0).vehicle
    &&& (update.trip_update->0).timestamp == (vehicle.vehicle->0).timestamp
    &&& update.id == entity_id((update.trip_update->0).vehicle.id, "-tu"@)
    &&& vehicle.id == entity_id((update.trip_update->0).vehicle.id, "-vp"@)
}

/// The diagnostics account for every row and every train: each row is ignored or of a train, and
/// each train is matched, with a trip update and a vehicle position that agree, or named as
/// unmatched. There are no alerts.
pub proof fn messages_account_for_all(
    converter: MartaGtfsRt,
    rows: Seq<MartaTrainRow>,
    timestamp: u64,
)
    ensures
        ({
            let results = messages(rows, converter.conversion_of(rows), timestamp);
            let groups = crate::groups::live_groups(rows);
            let updates = results.trip_updates.entity;
            let vehicles = results.vehicle_positions.entity;
            &&& results.diagnostics.received_rows
                == results.diagnostics.ignored_non_realtime_rows + crate::groups::grouped_count(
                groups,
            )
            &&& results.diagnostics.matched_trains + results.diagnostics.unmatched_trains
                == groups.len()
            &&& updates.len() == results.diagnostics.matched_trains
            &&& vehicles.len() == results.diagnostics.matched_trains
            &&& results.diagnostics.unmatched_train_ids.len()
                == results.diagnostics.unmatched_trains
            &&& forall|k: int|
                0 <= k < updates.len() ==> same_train(#[trigger] updates[k], vehicles[k])
            &&& results.alerts.entity.len() == 0
        }),
{
    let groups = crate::groups::live_groups(rows);
    crate::groups::groups_partition(rows);
    lemma_conversion_counts(
        converter.index,
        converter.config.matcher,
        converter.config.assignment_ttl_seconds,
        converter.assigned(),
        groups,
        groups.len() as int,
    );
}

/// A trip update has one stop time update for each stop that was observed, in the order of the
/// trip.
pub proof fn updates_follow_trip(
    rows: Seq<MartaTrainRow>,
    trip: IndexedTrip,
    found: TripMatch,
    latest: i64,
)
    ensures
        ({
            let update = trip_update_entity(rows, trip, found, latest).trip_update->0;
            &&& update.stop_time_update.len() == found.positions.len()
            &&& crate::ordered::keys_ascend(
                update.stop_time_update,
                crate::realtime::stop_order(),
            )
            &&& update.stop_time_update.to_multiset() == match_updates(
                rows,
                trip,
                found.positions,
            ).to_multiset()
        }),
{
    crate::ordered::sorting_orders(
        match_updates(rows, trip, found.positions),
        crate::realtime::stop_order(),
    );
}

/// A train without a fitting hint gives the same in two converters of one schedule with the same
/// settings, whatever they remember.
pub proof fn failing_hint_gives_same_train(
    one: MartaGtfsRt,
    other: MartaGtfsRt,
    feed: &StaticFeed,
    rows: Seq<MartaTrainRow>,
)
    requires
        one.valid(),
        other.valid(),
        one.index.holds(feed),
        other.index.holds(feed),
        one.config.matcher == other.config.matcher,
        rows.len() <= usize::MAX,
        one.without_fitting_hint(rows),
        other.without_fitting_hint(rows),
    ensures
        converted_train(
            one.index,
            one.config.matcher,
            one.config.assignment_ttl_seconds,
            one.assigned(),
            rows,
        ) == converted_train(
            other.index,
            other.config.matcher,
            other.config.assignment_ttl_seconds,
            other.assigned(),
            rows,
        ),
{
    reveal(converted_train);
    let matcher = one.config.matcher;
    let train = crate::groups::train_of(rows[0]);
    if let Some(latest) = latest_event(rows, rows.len() as int) {
        let hint = one.hint(rows);
        let other_hint = other.hint(rows);
        crate::agreement::failing_hint_is_ignored(one.index, rows, matcher, hint);
        crate::agreement::failing_hint_is_ignored(other.index, rows, matcher, other_hint);
        crate::agreement::indexes_match_alike(
            one.index,
            other.index,
            feed,
            rows,
            matcher,
            None,
        );
        if let Some(found) = crate::matcher::train_match(one.index, rows, matcher, None) {
            lemma_match_rows(one.index, rows, matcher, None);
            crate::agreement::trips_are_same(one.index, other.index, feed, found.trip as int);
            let left = one.index.trips@[found.trip as int];
            let right = other.index.trips@[found.trip as int];
            let updates = match_updates(rows, left, found.positions);
            assert forall|k: int| 0 <= k < updates.len() implies #[trigger] updates[k]
                == match_updates(rows, right, found.positions)[k] by {
                let stop = found.positions[k].1 as int;
                assert(stop < left.stop_ids@.len());
                assert(crate::names::texts(left.stop_ids@)[stop] == left.stop_ids@[stop]@);
                assert(crate::names::texts(left.stop_ids@).len() == left.stop_ids@.len());
                assert(crate::names::texts(right.stop_ids@).len() == right.stop_ids@.len());
                assert(crate::names::texts(right.stop_ids@)[stop] == right.stop_ids@[stop]@);
            }
            assert(updates =~= match_updates(rows, right, found.positions));
        }
    }
}

/// An assignment is only a hint: where the one live train of the rows has an assignment that is
/// too old, was made for another line, direction or destination, or is no longer fit by the
/// train, the messages are those of a fresh converter of the same schedule and settings.
pub proof fn failing_hint_gives_fresh_messages(
    converter: MartaGtfsRt,
    fresh: MartaGtfsRt,
    feed: &StaticFeed,
    rows: Seq<MartaTrainRow>,
    timestamp: u64,
)
    requires
        converter.valid(),
        fresh.valid(),
        converter.index.holds(feed),
        fresh.index.holds(feed),
        converter.config.matcher == fresh.config.matcher,
        fresh.assigned() == Map::<Seq<char>, Assignment>::empty(),
        rows.len() <= usize::MAX,
        crate::groups::live_groups(rows).len() == 1,
        converter.without_fitting_hint(crate::groups::live_groups(rows)[0]),
    ensures
        messages(rows, converter.conversion_of(rows), timestamp) == messages(
            rows,
            fresh.conversion_of(rows),
            timestamp,
        ),
{
    let groups = crate::groups::live_groups(rows);
    let train = groups[0];
    crate::groups::groups_partition(rows);
    assert(train == crate::groups::rows_of(rows, crate::groups::train_of(train[0])));
    rows.lemma_filter_len(
        |row: MartaTrainRow|
            crate::models::live(row) && crate::groups::train_of(row) == crate::groups::train_of(
                train[0],
            ),
    );
    failing_hint_gives_same_train(converter, fresh, feed, train);
    reveal_with_fuel(conversion, 2);
    assert(converter.conversion_of(rows).trip_updates =~= fresh.conversion_of(rows).trip_updates);
    assert(converter.conversion_of(rows).vehicles =~= fresh.conversion_of(rows).vehicles);
    assert(converter.conversion_of(rows).unmatched =~= fresh.conversion_of(rows).unmatched);
}

proof fn lemma_latest_event(rows: Seq<MartaTrainRow>, count: int)
    requires
        0 <= count <= rows.len(),
    ensures
        latest_event(rows, count) matches Some(latest) ==> {
            &&& exists|k: int| 0 <= k < count && seen_when(#[trigger] rows[k], latest)
            &&& forall|j: int, unix: i64|
                0 <= j < count && #[trigger] seen_when(rows[j], unix) ==> unix <= latest
        },
    decreases count,
{
    if count > 0 {
        lemma_latest_event(rows, count - 1);
        if latest_event(rows, count - 1) is None {
            lemma_no_event(rows, count - 1);
        }
        if latest_event(rows, count) is Some {
            let latest = latest_event(rows, count)->0;
            if latest_event(rows, count - 1) == Some(latest) {
                let k = choose|k: int| 0 <= k < count - 1 && seen_when(#[trigger] rows[k], latest);
                assert(seen_when(rows[k], latest));
            } else {
                assert(seen_when(rows[count - 1], latest));
            }
        }
    }
}

/// Whether a row has an event time at a moment.
pub open spec fn seen_when(row: MartaTrainRow, unix: i64) -> bool {
    crate::time::event_time(row.event_time@) matches Some(event) && event.unix == unix
}

/// The latest event of rows is that of one of them, and none of them has a later one. There is
/// one where a row has an event time that can be read.
pub proof fn latest_event_is_latest(rows: Seq<MartaTrainRow>)
    ensures
        latest_event(rows, rows.len() as int) matches Some(latest) ==> {
            &&& exists|k: int| 0 <= k < rows.len() && seen_when(#[trigger] rows[k], latest)
            &&& forall|j: int, unix: i64|
                0 <= j < rows.len() && #[trigger] seen_when(rows[j], unix) ==> unix <= latest
        },
        latest_event(rows, rows.len() as int) is None ==> forall|j: int|
            0 <= j < rows.len() ==> crate::time::event_time(
                (#[trigger] rows[j]).event_time@,
            ) is None,
{
    lemma_latest_event(rows, rows.len() as int);
    if latest_event(rows, rows.len() as int) is None {
        lemma_no_event(rows, rows.len() as int);
    }
}

/// Whether a row saw its train at a moment and a place: its event time is that moment, and its
/// coordinates, trimmed, are numbers and those of the place.
pub open spec fn seen_at(row: MartaTrainRow, unix: i64, place: PositionView) -> bool {
    &&& crate::time::event_time(row.event_time@) matches Some(event) && event.unix == unix
    &&& row.latitude matches Some(latitude) && crate::coordinates::number_text(
        crate::text::trimmed(latitude@),
    ) && place.latitude == crate::text::trimmed(latitude@)
    &&& row.longitude matches Some(longitude) && crate::coordinates::number_text(
        crate::text::trimmed(longitude@),
    ) && place.longitude == crate::text::trimmed(longitude@)
}

proof fn lemma_sighting(row: MartaTrainRow)
    ensures
        match sighting(row) {
            Some(seen) => seen_at(row, seen.0, seen.1),
            None => forall|unix: i64, place: PositionView| !#[trigger] seen_at(row, unix, place),
        },
        forall|unix: i64, place: PositionView| #[trigger]
            seen_at(row, unix, place) ==> sighting(row) == Some((unix, place)),
{
    assert forall|unix: i64, place: PositionView| #[trigger]
        seen_at(row, unix, place) implies sighting(row) == Some((unix, place)) by {}
}

/// Whether row `k` of the first `count` rows saw its train at a moment and a place, none of them
/// saw it at a later moment, and none after row `k` at the same moment.
pub open spec fn last_seen_by(
    rows: Seq<MartaTrainRow>,
    count: int,
    k: int,
    latest: i64,
    place: PositionView,
) -> bool {
    &&& 0 <= k < count
    &&& seen_at(rows[k], latest, place)
    &&& forall|j: int, unix: i64, other: PositionView|
        0 <= j < count && #[trigger] seen_at(rows[j], unix, other) ==> unix <= latest
    &&& forall|j: int, unix: i64, other: PositionView|
        k < j < count && #[trigger] seen_at(rows[j], unix, other) ==> unix < latest
}

proof fn lemma_latest_sighting(rows: Seq<MartaTrainRow>, count: int)
    requires
        0 <= count <= rows.len(),
    ensures
        match latest_sighting(rows, count) {
            Some(seen) => exists|k: int| #[trigger] last_seen_by(rows, count, k, seen.0, seen.1),
            None => forall|j: int, unix: i64, place: PositionView|
                0 <= j < count ==> !#[trigger] seen_at(rows[j], unix, place),
        },
    decreases count,
{
    if count > 0 {
        lemma_latest_sighting(rows, count - 1);
        lemma_sighting(rows[count - 1]);
        if latest_sighting(rows, count) is Some {
            let seen = latest_sighting(rows, count)->0;
            if sighting(rows[count - 1]) == Some(seen) && (latest_sighting(rows, count - 1) is None
                || seen.0 >= (latest_sighting(rows, count - 1)->0).0) {
                assert(last_seen_by(rows, count, count - 1, seen.0, seen.1));
            } else {
                let k = choose|k: int| #[trigger] last_seen_by(rows, count - 1, k, seen.0, seen.1);
                assert(last_seen_by(rows, count, k, seen.0, seen.1));
            }
        }
    }
}

/// The position of a train is the place where one of its rows saw it, and no row saw it at a
/// later moment, nor any row after that one at the same moment. A train has no position where no
/// row has an event time and two coordinates that can be read.
pub proof fn position_is_of_latest_sighting(rows: Seq<MartaTrainRow>)
    ensures
        match last_position(rows) {
            Some(place) => exists|k: int, latest: i64| #[trigger]
                last_seen_by(rows, rows.len() as int, k, latest, place),
            None => forall|j: int, unix: i64, place: PositionView|
                0 <= j < rows.len() ==> !#[trigger] seen_at(rows[j], unix, place),
        },
{
    lemma_latest_sighting(rows, rows.len() as int);
    if latest_sighting(rows, rows.len() as int) is Some {
        let seen = latest_sighting(rows, rows.len() as int)->0;
        let k = choose|k: int| #[trigger]
            last_seen_by(rows, rows.len() as int, k, seen.0, seen.1);
        assert(last_seen_by(rows, rows.len() as int, k, seen.0, seen.1));
        let place = last_position(rows)->0;
        assert(place == seen.1);
        assert(last_seen_by(rows, rows.len() as int, k, seen.0, place));
    }
}

/// Whether a stop time update tells what a row says of the arrival at a stop of a trip: the stop
/// by its id and number, the moment of the arrival, and the seconds of the delay with their
/// sign, where these can be read and fit 32 bits.
pub open spec fn tells_arrival(
    update: StopTimeUpdateView,
    row: MartaTrainRow,
    trip: IndexedTrip,
    stop: int,
) -> bool {
    &&& update.stop_sequence == trip.stop_sequences@[stop]
    &&& update.stop_id == trip.stop_ids@[stop]@
    &&& crate::time::event_time(row.event_time@) matches Some(event) ==> (
    crate::time::next_arrival(
        event.local,
        row.next_arr@,
        crate::text::i64_text(crate::text::trimmed(row.waiting_seconds@)),
    ) matches Some(arrival) ==> update.arrival.time == arrival.unix)
    &&& match crate::delay::delay_seconds(row.delay@) {
        Some(delay) => if -0x8000_0000 <= delay <= 0x7fff_ffff {
            update.arrival.delay matches Some(told) && told == delay
        } else {
            update.arrival.delay is None
        },
        None => update.arrival.delay is None,
    }
}

/// The update of a stop tells what its row says: the delay with its sign, the arrival, and the
/// stop of the trip.
pub proof fn update_tells_row(row: MartaTrainRow, trip: IndexedTrip, stop: usize)
    ensures
        tells_arrival(stop_update(row, trip, stop), row, trip, stop as int),
{
}

/// Every stop time update of a trip update tells what one of the rows of the match says of the
/// stop that the match gives it, every row of the match is told, and the updates are in the order
/// of the stops.
pub proof fn trip_update_tells_rows(
    rows: Seq<MartaTrainRow>,
    trip: IndexedTrip,
    found: TripMatch,
    latest: i64,
)
    ensures
        ({
            let updates = (trip_update_entity(
                rows,
                trip,
                found,
                latest,
            ).trip_update->0).stop_time_update;
            &&& updates.len() == found.positions.len()
            &&& forall|u: int|
                0 <= u < updates.len() ==> exists|k: int|
                    0 <= k < found.positions.len() && tells_arrival(
                        #[trigger] updates[u],
                        rows[(#[trigger] found.positions[k]).0 as int],
                        trip,
                        found.positions[k].1 as int,
                    )
            &&& forall|k: int|
                0 <= k < found.positions.len() ==> exists|u: int|
                    0 <= u < updates.len() && tells_arrival(
                        #[trigger] updates[u],
                        rows[(#[trigger] found.positions[k]).0 as int],
                        trip,
                        found.positions[k].1 as int,
                    )
            &&& forall|u: int, v: int|
                0 <= u < v < updates.len() ==> (#[trigger] updates[u]).stop_sequence <= (
                #[trigger] updates[v]).stop_sequence
        }),
{
    broadcast use vstd::seq_lib::group_to_multiset_ensures;

    let given = match_updates(rows, trip, found.positions);
    let updates = (trip_update_entity(rows, trip, found, latest).trip_update->0).stop_time_update;
    updates_follow_trip(rows, trip, found, latest);
    assert forall|u: int| 0 <= u < updates.len() implies exists|k: int|
        0 <= k < found.positions.len() && tells_arrival(
            #[trigger] updates[u],
            rows[(#[trigger] found.positions[k]).0 as int],
            trip,
            found.positions[k].1 as int,
        ) by {
        assert(updates.contains(updates[u]));
        assert(given.to_multiset().count(updates[u]) > 0);
        let k = choose|k: int| 0 <= k < given.len() && given[k] == updates[u];
        update_tells_row(rows[found.positions[k].0 as int], trip, found.positions[k].1);
        assert(found.positions[k].0 as int == found.positions[k].0);
    }
    assert forall|k: int| 0 <= k < found.positions.len() implies exists|u: int|
        0 <= u < updates.len() && tells_arrival(
            #[trigger] updates[u],
            rows[(#[trigger] found.positions[k]).0 as int],
            trip,
            found.positions[k].1 as int,
        ) by {
        assert(given.contains(given[k]));
        assert(updates.to_multiset().count(given[k]) > 0);
        let u = choose|u: int| 0 <= u < updates.len() && updates[u] == given[k];
        update_tells_row(rows[found.positions[k].0 as int], trip, found.positions[k].1);
        assert(updates[u] == given[k]);
    }
    assert forall|u: int, v: int| 0 <= u < v < updates.len() implies (
    #[trigger] updates[u]).stop_sequence <= (#[trigger] updates[v]).stop_sequence by {
        assert(crate::realtime::stop_order()(updates[u]) <= crate::realtime::stop_order()(
            updates[v],
        ));
    }
}

/// Whether a message names a trip on a day: by its id, its route, its direction and the day.
pub open spec fn names_trip(named: TripDescriptorView, trip: IndexedTrip, date: i32) -> bool {
    &&& named.trip_id == trip.trip_id@
    &&& named.route_id == trip.route_id@
    &&& named.direction_id == trip.direction_id
    &&& named.start_date == crate::time::formatted_date(date, "%Y%m%d"@)
}

/// A train is converted where it has an event time and is matched, looked for first on the trip
/// that it was last assigned to. Its entities carry its id with the mark of the feed, name it and
/// its trip, and are of the moment of its latest event, which no message before the Unix era can
/// carry; and what is remembered is that trip and what was known of the train.
pub proof fn converted_train_is_reported(
    index: MartaScheduleIndex,
    matcher: MatcherConfig,
    ttl: i64,
    assigned: Map<Seq<char>, Assignment>,
    rows: Seq<MartaTrainRow>,
    latest: i64,
    found: TripMatch,
)
    requires
        latest_event(rows, rows.len() as int) == Some(latest),
        crate::matcher::train_match(
            index,
            rows,
            matcher,
            crate::assignments::preferred(
                assigned,
                crate::groups::train_of(rows[0]),
                latest,
                ttl,
            ),
        ) == Some(found),
    ensures
        converted_train(index, matcher, ttl, assigned, rows) matches Some(train) && {
            let id = crate::text::trimmed(rows[0].train_id@);
            let trip = index.trips@[found.trip as int];
            &&& train.trip_update.id == "marta-"@ + id + "-tu"@
            &&& train.vehicle.id == "marta-"@ + id + "-vp"@
            &&& train.trip_update.vehicle is None && train.vehicle.trip_update is None
            &&& train.trip_update.trip_update matches Some(update) && {
                &&& names_trip(update.trip, trip, found.date)
                &&& update.vehicle.id == id && update.vehicle.label == id
                &&& latest >= 0 ==> (update.timestamp matches Some(at) && at == latest)
                &&& latest < 0 ==> update.timestamp is None
                &&& train.trip_update == trip_update_entity(rows, trip, found, latest)
            }
            &&& train.vehicle.vehicle matches Some(vehicle) && {
                &&& names_trip(vehicle.trip, trip, found.date)
                &&& vehicle.vehicle.id == id && vehicle.vehicle.label == id
                &&& latest >= 0 ==> (vehicle.timestamp matches Some(at) && at == latest)
                &&& latest < 0 ==> vehicle.timestamp is None
                &&& vehicle.position == last_position(rows)
            }
            &&& train.assignment.trip == found.trip && train.assignment.date == found.date
            &&& train.assignment.last_seen == latest
            &&& train.assignment.line == crate::text::uppercased(
                crate::text::trimmed(rows[0].line@),
            )
            &&& train.assignment.direction == crate::text::uppercased(
                crate::text::trimmed(rows[0].direction@),
            )
            &&& train.assignment.destination == crate::names::station_name(rows[0].destination@)
        },
{
    reveal(converted_train);
}

/// A train without an event time, or that is not matched, is not converted.
pub proof fn unmatched_train_is_not_converted(
    index: MartaScheduleIndex,
    matcher: MatcherConfig,
    ttl: i64,
    assigned: Map<Seq<char>, Assignment>,
    rows: Seq<MartaTrainRow>,
)
    requires
        latest_event(rows, rows.len() as int) matches Some(latest) ==> crate::matcher::train_match(
            index,
            rows,
            matcher,
            crate::assignments::preferred(
                assigned,
                crate::groups::train_of(rows[0]),
                latest,
                ttl,
            ),
        ) is None,
    ensures
        converted_train(index, matcher, ttl, assigned, rows) is None,
{
    reveal(converted_train);
}

/// The trains are converted one after the other, each with the assignments that the ones before
/// it left. One that is matched adds its entities at the end, and its assignment, and assignments
/// older by then than three times `ttl` seconds go; one that is not adds its id to the unmatched
/// and changes nothing else.
pub proof fn trains_are_converted_in_turn(
    index: MartaScheduleIndex,
    matcher: MatcherConfig,
    ttl: i64,
    assigned: Map<Seq<char>, Assignment>,
    groups: Seq<Seq<MartaTrainRow>>,
    count: int,
)
    requires
        0 <= count < groups.len(),
    ensures
        ({
            let none = conversion(index, matcher, ttl, assigned, groups, 0);
            let before = conversion(index, matcher, ttl, assigned, groups, count);
            let after = conversion(index, matcher, ttl, assigned, groups, count + 1);
            let id = crate::text::trimmed(groups[count][0].train_id@);
            &&& none.trip_updates.len() == 0 && none.vehicles.len() == 0 && none.unmatched.len()
                == 0 && none.assigned == assigned
            &&& match converted_train(index, matcher, ttl, before.assigned, groups[count]) {
                Some(train) => {
                    &&& after.trip_updates == before.trip_updates.push(train.trip_update)
                    &&& after.vehicles == before.vehicles.push(train.vehicle)
                    &&& after.unmatched == before.unmatched
                    &&& i64::MIN <= 3 * ttl < i64::MAX ==> {
                        &&& forall|other: Seq<char>|
                            other != id ==> {
                                &&& #[trigger] after.assigned.contains_key(other)
                                    <==> before.assigned.contains_key(other)
                                    && train.assignment.last_seen
                                    - before.assigned[other].last_seen <= 3 * ttl
                                &&& after.assigned.contains_key(other) ==> after.assigned[other]
                                    == before.assigned[other]
                            }
                        &&& ttl >= 0 ==> after.assigned.contains_key(id) && after.assigned[id]
                            == train.assignment
                    }
                },
                None => {
                    &&& after.trip_updates == before.trip_updates
                    &&& after.vehicles == before.vehicles
                    &&& after.unmatched == before.unmatched.push(id)
                    &&& after.assigned == before.assigned
                },
            }
        }),
{
    let before = conversion(index, matcher, ttl, assigned, groups, count);
    let id = crate::text::trimmed(groups[count][0].train_id@);
    match converted_train(index, matcher, ttl, before.assigned, groups[count]) {
        Some(train) => {
            if i64::MIN <= 3 * ttl < i64::MAX {
                let grown = before.assigned.insert(id, train.assignment);
                assert forall|other: Seq<char>| other != id implies {
                    &&& #[trigger] conversion(
                        index,
                        matcher,
                        ttl,
                        assigned,
                        groups,
                        count + 1,
                    ).assigned.contains_key(other) <==> before.assigned.contains_key(other)
                        && train.assignment.last_seen - before.assigned[other].last_seen <= 3 * ttl
                    &&& conversion(
                        index,
                        matcher,
                        ttl,
                        assigned,
                        groups,
                        count + 1,
                    ).assigned.contains_key(other) ==> conversion(
                        index,
                        matcher,
                        ttl,
                        assigned,
                        groups,
                        count + 1,
                    ).assigned[other] == before.assigned[other]
                } by {
                    crate::assignments::old_assignments_go(
                        grown,
                        train.assignment.last_seen,
                        ttl,
                        other,
                    );
                }
                crate::assignments::old_assignments_go(grown, train.assignment.last_seen, ttl, id);
            }
        },
        None => {},
    }
}

/// Each message carries the version of the format and the moment at which it was made, and the
/// messages and diagnostics carry what was converted: every live group is one of the trains that
/// were tried.
pub proof fn messages_carry_conversion(
    converter: MartaGtfsRt,
    rows: Seq<MartaTrainRow>,
    timestamp: u64,
)
    ensures
        ({
            let results = messages(rows, converter.conversion_of(rows), timestamp);
            let groups = crate::groups::live_groups(rows);
            let done = conversion(
                converter.index,
                converter.config.matcher,
                converter.config.assignment_ttl_seconds,
                converter.assigned(),
                groups,
                groups.len() as int,
            );
            &&& results.trip_updates.header.gtfs_realtime_version == "2.0"@
            &&& results.trip_updates.header.timestamp == timestamp
            &&& results.vehicle_positions.header == results.trip_updates.header
            &&& results.alerts.header == results.trip_updates.header
            &&& results.trip_updates.entity == done.trip_updates
            &&& results.vehicle_positions.entity == done.vehicles
            &&& results.alerts.entity.len() == 0
            &&& results.diagnostics.received_rows == rows.len()
            &&& results.diagnostics.ignored_non_realtime_rows == rows.filter(
                |row: MartaTrainRow| !crate::models::live(row),
            ).len()
            &&& results.diagnostics.matched_trains == done.trip_updates.len()
            &&& results.diagnostics.unmatched_trains == done.unmatched.len()
            &&& results.diagnostics.unmatched_train_ids == done.unmatched
        }),
{
    crate::groups::one_group_for_each_train(rows);
}

/// The results of a conversion say their three messages and the numbers and train ids of their
/// diagnostics.
pub proof fn results_say_fields(results: MartaGtfsRtResults)
    ensures
        results@.trip_updates == results.trip_updates@,
        results@.vehicle_positions == results.vehicle_positions@,
        results@.alerts == results.alerts@,
        results@.diagnostics.received_rows == results.diagnostics.received_rows,
        results@.diagnostics.ignored_non_realtime_rows
            == results.diagnostics.ignored_non_realtime_rows,
        results@.diagnostics.matched_trains == results.diagnostics.matched_trains,
        results@.diagnostics.unmatched_trains == results.diagnostics.unmatched_trains,
        results@.diagnostics.unmatched_train_ids.len()
            == results.diagnostics.unmatched_train_ids@.len(),
        forall|i: int|
            0 <= i < results.diagnostics.unmatched_train_ids@.len()
                ==> #[trigger] results@.diagnostics.unmatched_train_ids[i]
                == results.diagnostics.unmatched_train_ids@[i]@,
{
}

} // verus!
