//! The static schedule: what the index reads of a GTFS feed.
use vstd::prelude::*;

use std::sync::Arc;

use crate::time::{MAX_DAY, MIN_DAY};

verus! {

/// The kind of transport on a route.
#[derive(Clone, Copy, Debug, PartialEq, Eq, Structural)]
pub enum RouteType {
    Tramway,
    Subway,
    Rail,
    Bus,
    Ferry,
    CableCar,
    Gondola,
    Funicular,
    Coach,
    Air,
    Taxi,
    Other(i16),
}

/// The direction of travel of a trip.
#[derive(Clone, Copy, Debug, PartialEq, Eq, Structural)]
pub enum Direction {
    Outbound,
    Inbound,
}

/// What happens to a service on a day of its own.
#[derive(Clone, Copy, Debug, PartialEq, Eq, Structural)]
pub enum Exception {
    /// The service runs on that day.
    Added,
    /// The service does not run on that day.
    Deleted,
}

/// A route.
#[derive(Clone, Debug)]
pub struct Route {
    pub id: String,
    pub route_type: RouteType,
    pub short_name: Option<String>,
    pub long_name: Option<String>,
}

/// A platform, stop or station.
#[derive(Clone, Debug)]
pub struct Stop {
    pub id: String,
    pub name: Option<String>,
    pub parent_station: Option<String>,
}

/// A call of a trip at a stop. Times are seconds since the midnight of the service day.
#[derive(Clone, Debug)]
pub struct StopTime {
    pub stop: Arc<Stop>,
    pub stop_sequence: u32,
    pub arrival_time: Option<u32>,
    pub departure_time: Option<u32>,
}

/// A trip with its calls in order.
#[derive(Clone, Debug)]
pub struct Trip {
    pub id: String,
    pub route_id: String,
    pub service_id: String,
    pub headsign: Option<String>,
    pub direction: Option<Direction>,
    pub stop_times: Vec<StopTime>,
}

/// The weekdays of a service, and the first and last day on which they count.
#[derive(Clone, Debug)]
pub struct Calendar {
    pub service_id: String,
    pub monday: bool,
    pub tuesday: bool,
    pub wednesday: bool,
    pub thursday: bool,
    pub friday: bool,
    pub saturday: bool,
    pub sunday: bool,
    pub start_date: i32,
    pub end_date: i32,
}

/// An exception to the weekdays of a service.
#[derive(Clone, Debug)]
pub struct CalendarDate {
    pub service_id: String,
    pub date: i32,
    pub exception: Exception,
}

/// A static schedule.
#[derive(Clone, Debug)]
pub struct StaticFeed {
    pub routes: Vec<Route>,
    pub trips: Vec<Trip>,
    pub stops: Vec<Arc<Stop>>,
    pub calendars: Vec<Calendar>,
    pub calendar_dates: Vec<CalendarDate>,
}

impl StaticFeed {
    /// Every date of the feed is one of the calendar.
    pub open spec fn valid(&self) -> bool {
        &&& forall|i: int|
            0 <= i < self.calendars@.len() ==> {
                &&& crate::time::MIN_DAY <= (
                #[trigger] self.calendars@[i]).start_date <= crate::time::MAX_DAY
                &&& crate::time::MIN_DAY <= self.calendars@[i].end_date <= crate::time::MAX_DAY
            }
        &&& forall|i: int|
            0 <= i < self.calendar_dates@.len() ==> crate::time::MIN_DAY <= (
            #[trigger] self.calendar_dates@[i]).date <= crate::time::MAX_DAY
    }

    /// Whether every date of the feed is one of the calendar.
    pub fn dates_fit(&self) -> (answer: bool)
        ensures
            answer == self.valid(),
    {
        for i in 0..self.calendars.len()
            invariant
                forall|k: int|
                    0 <= k < i ==> {
                        &&& crate::time::MIN_DAY <= (
                        #[trigger] self.calendars@[k]).start_date <= crate::time::MAX_DAY
                        &&& crate::time::MIN_DAY <= self.calendars@[k].end_date
                            <= crate::time::MAX_DAY
                    },
        {
            let calendar = &self.calendars[i];
            if calendar.start_date < MIN_DAY || calendar.start_date > MAX_DAY
                || calendar.end_date < MIN_DAY || calendar.end_date > MAX_DAY {
                return false;
            }
        }
        for i in 0..self.calendar_dates.len()
            invariant
                forall|k: int|
                    0 <= k < i ==> crate::time::MIN_DAY <= (
                    #[trigger] self.calendar_dates@[k]).date <= crate::time::MAX_DAY,
        {
            let date = self.calendar_dates[i].date;
            if date < MIN_DAY || date > MAX_DAY {
                return false;
            }
        }
        true
    }
}

} // verus!
