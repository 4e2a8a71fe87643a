//! Streaming time-series engine for a terminal metrics dashboard.
//!
//! The engine ingests named numeric samples from heterogeneous sources,
//! keeps one ordered series per signal name with bounded retention, and
//! projects per-frame chart bounds, per-signal maxima and cursor-nearest
//! readouts for an external renderer.
//!
//! Time is measured in milliseconds since start; sample values are
//! fixed-point numbers with six decimal places (micro-units).

pub mod app;
pub mod fixed;
pub mod parse;
pub mod project;
pub mod scale;
pub mod source;
pub mod store;
