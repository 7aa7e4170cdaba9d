//! A per-target latency time series engine: an append-only sample log with
//! bounded retention, rolling statistics, gap-aware segmentation for
//! discontinuous rendering, and an optional moving-average smoothing filter,
//! composed into a shared store keyed by target name.
//!
//! Timestamps are milliseconds relative to a single process-wide start
//! instant; latencies are integer latency units (the callers pick the scale,
//! typically microseconds or milliseconds).

pub mod sample;
pub mod series;
pub mod sma;
pub mod stats;
pub mod store;
