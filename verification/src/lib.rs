//! A userspace NVMe storage target: the NVMe command set over namespaces, the
//! backends that store them, the Sheepdog cluster protocol, CPU placement, and
//! what a target decides while it serves.

use vstd::prelude::*;

pub mod addr;
pub mod affinity;
pub mod any;
pub mod attached;
pub mod backend;
pub mod buf;
pub mod bytes;
pub mod cli;
pub mod config;
pub mod controller;
pub mod cpuset;
pub mod dispatch;
pub mod file;
pub mod group;
pub mod harness;
pub mod io;
pub mod memory;
pub mod nstable;
pub mod null;
pub mod nvme;
pub mod order;
pub mod permit;
pub mod pool;
pub mod queue;
pub mod rdma;
pub mod sets;
pub mod sheepdog;
pub mod slotq;
pub mod spread;
pub mod subsystem;
pub mod text;
pub mod topology;
pub mod uuid;

verus! {

} // verus!
