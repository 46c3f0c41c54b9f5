//! Verified core of a set of small system-monitoring programs: binary
//! conversion, a randomly filled memory block, a bounded shared counter,
//! top-N process ranking, disk and network counters, threshold alerts and
//! the aggregation behind the metrics plots.
pub mod random;
pub mod memory;
pub mod binary;
pub mod counter;
pub mod ranking;
pub mod metrics;
pub mod defense;
pub mod monitor;
pub mod analyzer;
pub mod log_order;
