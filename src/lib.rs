//! Enumeration of a partitioned object-store bucket into per-partition
//! manifests: partition keys, page aggregation, manifest text, and the
//! bounded fan-out that runs one job per partition.
pub mod listing;
pub mod manifest;
pub mod partition;
pub mod scheduler;
