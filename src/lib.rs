//! A TCP connectivity scanner core: port-range parsing, probe classification,
//! a bounded-concurrency scan scheduler and an ordered result set.
//!
//! Network I/O, threads and output formatting live outside this library; they
//! drive the scheduler with plain values.

pub mod port_range;
pub mod outcome;
pub mod result_set;
pub mod scheduler;
