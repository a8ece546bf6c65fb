//! Transport-neutral NVMe-oF target harness: what a target decides while it
//! starts, serves, follows a cluster and shuts down.
//!
//! Sockets, threads, rings and clocks are the caller's; what they report comes
//! in as values, and what is to be done with them goes out as values.

pub mod acl;
pub mod ana;
pub mod cluster;
pub mod cntlid;
pub mod control;
pub mod cpus;
pub mod paths;
pub mod port;
pub mod shutdown;
pub mod stats;
pub mod target;
pub mod thread;
