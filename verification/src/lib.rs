//! A metrics aggregation library: a wire-protocol parser that turns textual
//! datagrams into typed metric events, a registry that accumulates counter,
//! timing and gauge events with overflow discipline, and a finalization step
//! that derives per-series statistics for publication.

pub mod engine;
pub mod maps;
pub mod metrics;
pub mod protocol;
pub mod stats;
