//! A timed-sampling benchmark engine.
//!
//! The library drives a sweep over an increasing scale parameter. For each
//! scale it repeatedly times one external invocation, stops sampling that
//! scale when a per-parameter time budget is exhausted, halts the whole
//! sweep on the first failed invocation, and records every sample as it
//! arrives. All durations are wall-clock times in nanoseconds; the caller
//! performs the actual invocations and timing and feeds the measurements
//! back in as plain values.

pub mod args;
pub mod bounds;
pub mod decimal;
pub mod report;
pub mod sample;
pub mod sampler;
pub mod sweep;
pub mod trace;
