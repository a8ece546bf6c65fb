//! NVMe/RDMA: work-request ids and runs, work-request statistics, and what the
//! connection listener does with each event.

pub mod listener;
pub mod stats;
pub mod wr;
