//! Discovery and classification of project directories under a root, with a
//! versioned, incremental result cache.
//!
//! The library holds the decisions: which directories are candidates, how a
//! directory is classified, which results are kept and in what order, and how
//! cached records are merged, checked for staleness and rotated. Reading the
//! disk, probing repositories and counting lines are done by the caller, who
//! hands the observed facts in as plain values.

pub mod model;
pub mod text;
pub mod clock;
pub mod filter;
pub mod scan;
pub mod checksums;
pub mod cache;
pub mod history;
pub mod git;
pub mod languages;
pub mod filesystem;
pub mod settings;
pub mod stats;
