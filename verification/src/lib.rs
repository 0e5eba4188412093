//! Shuffle-write buffering engine.
//!
//! Accepts a stream of columnar batches bound for a partitioned shuffle,
//! bounds memory by incrementally bucket-sorting and compacting them into
//! sorted runs, then merges the runs into a fully partition-grouped byte
//! stream together with per-partition byte offsets.

pub mod batch;
pub mod buffered_data;
pub mod codec;
pub mod grouping;
pub mod merge;
pub mod partition;
pub mod seq_helpers;
pub mod sort;
