//! A concurrency-bounded host-liveness sweeper's verified core: address
//! classification, inclusive IPv4 range enumeration, wave planning that
//! caps how many probes are ever in flight, and a deterministic report
//! ordered by numeric address value whatever order the probes finished in.
//! The probe mechanism itself and all input and output stay outside.

pub mod addr;
pub mod classify;
pub mod cli;
pub mod range;
pub mod report;
pub mod schedule;
