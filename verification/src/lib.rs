//! Detection of commercial-message (CM) blocks in a broadcast recording,
//! working from a precomputed list of silence intervals.
//!
//! Silences whose spacing matches the canonical 15-second grid of CM slot
//! durations are chained together; a feasible-boundary range is tightened
//! hop by hop so that per-hop tolerance does not accumulate; chains are then
//! merged across short 5 s / 10 s bumpers, extended outward over bumpers at
//! their edges, and filtered by total duration and strict-standard hop count.
//! All time arithmetic is in integer milliseconds.
//!
//! The pieces, in pipeline order:
//! - [`types`]: silence segments, boundary ranges, hops and blocks, with
//!   their ghost models;
//! - [`units`]: the 15 s grid, the short bumper units and the tolerance;
//! - [`ingest`]: the ASCII line test and the informational start offset;
//! - [`chain`]: the range-based chainer;
//! - [`merge`]: fusing neighbouring blocks across short-unit gaps;
//! - [`extend`]: absorbing short bumpers at block edges;
//! - [`filter`]: the final duration and standard-hop floors;
//! - [`report`]: the whole pipeline as one function;
//! - [`laws`]: the block invariants, proved across every stage;
//! - [`soundness`]: exact-boundary witnesses for every accepted chain.

pub mod chain;
pub mod extend;
pub mod filter;
pub mod ingest;
pub mod laws;
pub mod merge;
pub mod report;
pub mod soundness;
pub mod types;
pub mod units;
