//! A verified core for a one-host TCP port scanner.
//!
//! The library holds the logic of the scan: the stride partition of the
//! 16-bit port range across a fixed number of workers, the per-worker
//! port enumeration, the fan-in aggregation that sorts the discovered
//! ports into a deterministic result, and the classification of the
//! command-line invocation into a scan request or an input error.
//! Connecting sockets, spawning threads and printing stay outside.

pub mod args;
pub mod collect;
pub mod partition;
pub mod scan;
