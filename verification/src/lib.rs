//! Bounded streaming sample buffers for a scrolling line chart.
//!
//! The crate keeps the most recent samples of a stream in a fixed-capacity
//! ring buffer ([`util::Data`]), tracks the running maximum and minimum of the
//! retained window incrementally ([`util::Bounds`]), and maintains running
//! sums for mean and variance in lockstep with evictions
//! ([`stats::RunningStats`]). A chart model ([`model::Model`]) owns one buffer
//! per axis and exposes the read surface a renderer needs.

pub mod model;
pub mod stats;
pub mod util;
