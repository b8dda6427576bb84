//! Emergency-alert ingestion, geofencing and map planning.
//!
//! Alerts arrive as references in syndication feeds; references already seen
//! are skipped through a persistent record; the alerts left are filtered by
//! the areas they cover and by severity, and a map of them is planned.

pub mod cap;
pub mod compose;
pub mod config;
pub mod decimal;
pub mod dedup;
pub mod facebook;
pub mod feed;
pub mod fence;
pub mod geometry;
pub mod output;
pub mod ring;
pub mod shapes;
pub mod text;
pub mod workplace;
