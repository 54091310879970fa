//! Streaming row pattern recognition.
//!
//! [`executor`] holds the steps of the operator, and [`pattern`] and [`scan`] what it finds. The laws
//! that hold of the whole stand in [`consistency`], [`history`], [`finality`] and [`pending`], and what
//! patterns match in [`language`].

pub mod buffer;
pub mod changelog;
pub mod consistency;
pub mod datum;
pub mod define;
pub mod emission;
pub mod eval;
pub mod eviction;
pub mod executor;
pub mod finality;
pub mod frontier;
pub mod gc;
pub mod groups;
pub mod history;
pub mod incremental;
pub mod ingest;
pub mod language;
pub mod matcher;
pub mod measure;
pub mod model;
pub mod names;
pub mod nfa;
pub mod pack_pk;
pub mod partitions;
pub mod pattern;
pub mod pending;
pub mod plan;
pub mod reach;
pub mod refine;
pub mod refresh;
pub mod scan;
pub mod settled;
pub mod skip;
pub mod trace;
pub mod visit;
