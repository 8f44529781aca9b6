//! Correlated view of swap, accelerator memory and NUMA placement.
//!
//! The library holds the parsers for the telemetry text, the topology
//! classifier, the per-class refresh scheduler, the join of the three
//! record sets by process id, and the ranking of the joined records.

pub mod text;
pub mod reorder;
pub mod types;
pub mod numa;
pub mod rank;
pub mod merge;
pub mod cache;
pub mod gpu;
pub mod swap;
