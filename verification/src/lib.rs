//! MARTA rail arrivals as realtime transit messages.
//!
//! The static schedule is indexed once, by [`MartaScheduleIndex::build`]. A process that polls the
//! arrival feed keeps one [`MartaGtfsRt`], so that the index and the trips that trains were
//! assigned to last from poll to poll.
pub mod agreement;
pub mod aliases;
pub mod alignment;
pub mod assignments;
pub mod builder;
pub mod converter;
pub mod coordinates;
pub mod delay;
pub mod feed;
pub mod groups;
pub mod guarantees;
pub mod index;
pub mod matcher;
pub mod models;
pub mod names;
pub mod observation;
pub mod ordered;
pub mod patterns;
pub mod realtime;
pub mod schedules;
pub mod sequences;
pub mod service;
pub mod text;
pub mod time;

pub use converter::{
    MartaConfig, MartaDiagnostics, MartaGtfsRt, MartaGtfsRtResults, MARTA_RAIL_REALTIME_URL,
};
pub use index::MartaScheduleIndex;
pub use matcher::MatcherConfig;
pub use models::MartaTrainRow;
