//! Ingestion and sliding-window aggregation of system-utilisation samples.
//!
//! Values are held as fixed-point integers: each stored value is a
//! thousandth of its unit (see [`sample::MILLI`]).
//!
//! - [`framing`] splits each connection's byte stream into messages.
//! - [`sample`] is one decoded snapshot and the conversions applied to it.
//! - [`series`] is one bounded, age-indexed time series.
//! - [`window`] holds every series and merges one sample per tick.
//! - [`nvidia`] reads the GPU power figures from the driver tool's report.
//! - [`color`] gives each core a stable display colour.
pub mod series;
pub mod sample;
pub mod window;
pub mod framing;
pub mod color;
pub mod nvidia;
