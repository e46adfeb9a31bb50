//! The realtime messages: trip updates and vehicle positions.
use vstd::prelude::*;

use crate::ordered::Keyed;

verus! {

/// The version of the realtime messages.
pub const REALTIME_VERSION: &'static str = "2.0";

/// A trip on a service day.
#[derive(Clone, Debug)]
pub struct TripDescriptor {
    pub trip_id: String,
    pub route_id: String,
    pub direction_id: Option<u32>,
    pub start_date: String,
}

/// What a trip descriptor says.
pub struct TripDescriptorView {
    pub trip_id: Seq<char>,
    pub route_id: Seq<char>,
    pub direction_id: Option<u32>,
    pub start_date: Seq<char>,
}

impl View for TripDescriptor {
    type V = TripDescriptorView;

    open spec fn view(&self) -> TripDescriptorView {
        TripDescriptorView {
            trip_id: self.trip_id@,
            route_id: self.route_id@,
            direction_id: self.direction_id,
            start_date: self.start_date@,
        }
    }
}

/// A vehicle.
#[derive(Clone, Debug)]
pub struct VehicleDescriptor {
    pub id: String,
    pub label: String,
}

/// What a vehicle descriptor says.
pub struct VehicleDescriptorView {
    pub id: Seq<char>,
    pub label: Seq<char>,
}

impl View for VehicleDescriptor {
    type V = VehicleDescriptorView;

    open spec fn view(&self) -> VehicleDescriptorView {
        VehicleDescriptorView { id: self.id@, label: self.label@ }
    }
}

/// The predicted arrival of a train, and its delay in seconds.
#[derive(Clone, Copy, Debug, PartialEq, Eq, Structural)]
pub struct StopTimeEvent {
    pub delay: Option<i32>,
    pub time: i64,
}

/// The predicted arrival at a stop of a trip.
#[derive(Clone, Debug)]
pub struct StopTimeUpdate {
    pub stop_sequence: u32,
    pub stop_id: String,
    pub arrival: StopTimeEvent,
}

/// What a stop time update says.
pub struct StopTimeUpdateView {
    pub stop_sequence: u32,
    pub stop_id: Seq<char>,
    pub arrival: StopTimeEvent,
}

impl View for StopTimeUpdate {
    type V = StopTimeUpdateView;

    open spec fn view(&self) -> StopTimeUpdateView {
        StopTimeUpdateView {
            stop_sequence: self.stop_sequence,
            stop_id: self.stop_id@,
            arrival: self.arrival,
        }
    }
}

impl Keyed for StopTimeUpdate {
    open spec fn sort_key(self) -> int {
        self.stop_sequence as int
    }

    fn key(&self) -> (key: i64) {
        self.stop_sequence as i64
    }
}

/// What stop time updates say.
pub open spec fn update_views(updates: Seq<StopTimeUpdate>) -> Seq<StopTimeUpdateView> {
    updates.map_values(|update: StopTimeUpdate| update@)
}

/// The place of an update in its trip.
pub open spec fn stop_order() -> spec_fn(StopTimeUpdateView) -> int {
    |update: StopTimeUpdateView| update.stop_sequence as int
}

/// The predicted arrivals of a train on its trip.
#[derive(Clone, Debug)]
pub struct TripUpdate {
    pub trip: TripDescriptor,
    pub vehicle: VehicleDescriptor,
    pub stop_time_update: Vec<StopTimeUpdate>,
    pub timestamp: Option<u64>,
}

/// What a trip update says.
pub struct TripUpdateView {
    pub trip: TripDescriptorView,
    pub vehicle: VehicleDescriptorView,
    pub stop_time_update: Seq<StopTimeUpdateView>,
    pub timestamp: Option<u64>,
}

impl View for TripUpdate {
    type V = TripUpdateView;

    open spec fn view(&self) -> TripUpdateView {
        TripUpdateView {
            trip: self.trip@,
            vehicle: self.vehicle@,
            stop_time_update: update_views(self.stop_time_update@),
            timestamp: self.timestamp,
        }
    }
}

/// A place: the decimal texts of its coordinates.
#[derive(Clone, Debug)]
pub struct Position {
    pub latitude: String,
    pub longitude: String,
}

/// What a position says.
pub struct PositionView {
    pub latitude: Seq<char>,
    pub longitude: Seq<char>,
}

impl View for Position {
    type V = PositionView;

    open spec fn view(&self) -> PositionView {
        PositionView { latitude: self.latitude@, longitude: self.longitude@ }
    }
}

/// Where a train is on its trip.
#[derive(Clone, Debug)]
pub struct VehiclePosition {
    pub trip: TripDescriptor,
    pub vehicle: VehicleDescriptor,
    pub position: Option<Position>,
    pub timestamp: Option<u64>,
}

/// What a vehicle position says.
pub struct VehiclePositionView {
    pub trip: TripDescriptorView,
    pub vehicle: VehicleDescriptorView,
    pub position: Option<PositionView>,
    pub timestamp: Option<u64>,
}

impl View for VehiclePosition {
    type V = VehiclePositionView;

    open spec fn view(&self) -> VehiclePositionView {
        VehiclePositionView {
            trip: self.trip@,
            vehicle: self.vehicle@,
            position: match self.position {
                Some(position) => Some(position@),
                None => None,
            },
            timestamp: self.timestamp,
        }
    }
}

/// An entity of a message: a trip update or a vehicle position.
#[derive(Clone, Debug)]
pub struct FeedEntity {
    pub id: String,
    pub trip_update: Option<TripUpdate>,
    pub vehicle: Option<VehiclePosition>,
}

/// What an entity says.
pub struct FeedEntityView {
    pub id: Seq<char>,
    pub trip_update: Option<TripUpdateView>,
    pub vehicle: Option<VehiclePositionView>,
}

impl View for FeedEntity {
    type V = FeedEntityView;

    open spec fn view(&self) -> FeedEntityView {
        FeedEntityView {
            id: self.id@,
            trip_update: match self.trip_update {
                Some(update) => Some(update@),
                None => None,
            },
            vehicle: match self.vehicle {
                Some(vehicle) => Some(vehicle@),
                None => None,
            },
        }
    }
}

/// What entities say.
pub open spec fn entity_views(entities: Seq<FeedEntity>) -> Seq<FeedEntityView> {
    entities.map_values(|entity: FeedEntity| entity@)
}

/// The head of a message: its version, and when it was made, in seconds of the Unix era.
#[derive(Clone, Debug)]
pub struct FeedHeader {
    pub gtfs_realtime_version: String,
    pub timestamp: u64,
}

/// What the head of a message says.
pub struct FeedHeaderView {
    pub gtfs_realtime_version: Seq<char>,
    pub timestamp: u64,
}

impl View for FeedHeader {
    type V = FeedHeaderView;

    open spec fn view(&self) -> FeedHeaderView {
        FeedHeaderView {
            gtfs_realtime_version: self.gtfs_realtime_version@,
            timestamp: self.timestamp,
        }
    }
}

/// A message.
#[derive(Clone, Debug)]
pub struct FeedMessage {
    pub header: FeedHeader,
    pub entity: Vec<FeedEntity>,
}

/// What a message says.
pub struct FeedMessageView {
    pub header: FeedHeaderView,
    pub entity: Seq<FeedEntityView>,
}

impl View for FeedMessage {
    type V = FeedMessageView;

    open spec fn view(&self) -> FeedMessageView {
        FeedMessageView { header: self.header@, entity: entity_views(self.entity@) }
    }
}

/// The head of a message made at a moment.
pub open spec fn header_at(timestamp: u64) -> FeedHeaderView {
    FeedHeaderView { gtfs_realtime_version: REALTIME_VERSION@, timestamp }
}

/// Makes the head of a message made at a moment.
pub fn feed_header(timestamp: u64) -> (header: FeedHeader)
    ensures
        header@ == header_at(timestamp),
{
    FeedHeader { gtfs_realtime_version: REALTIME_VERSION.to_owned(), timestamp }
}

/// Reads the clock with `elapsed` of `std::time::UNIX_EPOCH`: the whole seconds since the start
/// of the Unix era, or nothing where the clock stands before it. Nothing is claimed of the
/// moment.
#[verifier::external_body]
fn seconds_since_epoch() -> (elapsed: Option<u64>) {
    std::time::UNIX_EPOCH.elapsed().ok().map(|elapsed| elapsed.as_secs())
}

/// The moment that a reading of the clock stands for: the start of the Unix era where the clock
/// stands before it.
pub fn clock_reading(elapsed: Option<u64>) -> (seconds: u64)
    ensures
        seconds == (match elapsed {
            Some(seconds) => seconds,
            None => 0,
        }),
{
    match elapsed {
        Some(seconds) => seconds,
        None => 0,
    }
}

/// The moment that the clock shows, in seconds of the Unix era. Nothing is claimed of it, because
/// it rests on the clock; [`clock_reading`] says what is made of each reading.
pub(crate) fn current_seconds() -> (seconds: u64) {
    clock_reading(seconds_since_epoch())
}

/// The moment that the clock shows, in seconds of the Unix era. Nothing is claimed of it, because
/// it rests on the clock; [`signed_seconds`] says what is made of each moment.
pub(crate) fn current_unix_i64() -> (seconds: i64) {
    signed_seconds(current_seconds())
}

/// Turns seconds into a signed number of 64 bits, which wraps around where they are too many.
pub fn signed_seconds(seconds: u64) -> (result: i64)
    ensures
        result == (if seconds <= i64::MAX {
            seconds as int
        } else {
            seconds - 0x1_0000_0000_0000_0000
        }),
{
    proof {
        assert(seconds <= 0x7fff_ffff_ffff_ffffu64 ==> seconds as i64 == seconds) by (bit_vector);
        assert(seconds > 0x7fff_ffff_ffff_ffffu64 ==> seconds as i64 == seconds
            - 0x1_0000_0000_0000_0000) by (bit_vector);
    }
    #[verifier::truncate]
    (seconds as i64)
}

/// A trip descriptor says its trip, its route, its direction and its day.
pub proof fn trip_descriptor_says_fields(trip: TripDescriptor)
    ensures
        trip@.trip_id == trip.trip_id@,
        trip@.route_id == trip.route_id@,
        trip@.direction_id == trip.direction_id,
        trip@.start_date == trip.start_date@,
{
}

/// A trip update says its trip, its vehicle by id and label, its moment and each of its stop
/// time updates, with the number and the id of the stop and the arrival, in their order.
pub proof fn trip_update_says_fields(update: TripUpdate)
    ensures
        update@.trip == update.trip@,
        update@.vehicle.id == update.vehicle.id@,
        update@.vehicle.label == update.vehicle.label@,
        update@.timestamp == update.timestamp,
        update@.stop_time_update.len() == update.stop_time_update@.len(),
        forall|i: int|
            0 <= i < update.stop_time_update@.len() ==> {
                let said = #[trigger] update@.stop_time_update[i];
                &&& said.stop_sequence == update.stop_time_update@[i].stop_sequence
                &&& said.stop_id == update.stop_time_update@[i].stop_id@
                &&& said.arrival.time == update.stop_time_update@[i].arrival.time
                &&& said.arrival.delay == update.stop_time_update@[i].arrival.delay
            },
{
}

/// A vehicle position says its trip, its vehicle by id and label, its moment and its place, if
/// it has one.
pub proof fn vehicle_position_says_fields(vehicle: VehiclePosition)
    ensures
        vehicle@.trip == vehicle.trip@,
        vehicle@.vehicle.id == vehicle.vehicle.id@,
        vehicle@.vehicle.label == vehicle.vehicle.label@,
        vehicle@.timestamp == vehicle.timestamp,
        vehicle@.position is Some <==> vehicle.position is Some,
        vehicle.position is Some ==> (vehicle@.position->0).latitude == (
        vehicle.position->0).latitude@ && (vehicle@.position->0).longitude == (
        vehicle.position->0).longitude@,
{
}

/// A message says its version, its moment and each of its entities, with its id and its trip
/// update or vehicle position, in their order.
pub proof fn message_says_fields(message: FeedMessage)
    ensures
        message@.header.gtfs_realtime_version == message.header.gtfs_realtime_version@,
        message@.header.timestamp == message.header.timestamp,
        message@.entity.len() == message.entity@.len(),
        forall|i: int|
            0 <= i < message.entity@.len() ==> {
                let said = #[trigger] message@.entity[i];
                let entity = message.entity@[i];
                &&& said.id == entity.id@
                &&& said.trip_update is Some <==> entity.trip_update is Some
                &&& entity.trip_update is Some ==> said.trip_update->0 == (entity.trip_update->0)@
                &&& said.vehicle is Some <==> entity.vehicle is Some
                &&& entity.vehicle is Some ==> said.vehicle->0 == (entity.vehicle->0)@
            },
{
}

} // verus!
