//! A load generator's scheduling and measurement core.
//!
//! The crate holds the decisions of a benchmarking engine that drives a remote
//! service with a controlled request rate: when each request is issued, where it
//! is sent, how its reply is classified and how the outcomes are summarised.
//! Timers, sockets and files stay with the caller; every function here works on
//! plain values and carries a contract that the verifier checks.

pub mod admission;
pub mod aggregate;
pub mod arith;
pub mod buckets;
pub mod dispatch;
pub mod generator;
pub mod histogram;
pub mod outcome;
pub mod percentile;
pub mod ramp;
pub mod report;
pub mod routing;
pub mod running;
pub mod stats;
pub mod text;
pub mod trace;
pub mod wire;
pub mod workload;
