//! Sheepdog cluster backend: serves a namespace from a named VDI on a
//! [Sheepdog](https://github.com/sheepdog/sheepdog) distributed-storage
//! cluster, over the plain-TCP client/gateway protocol.
//!
//! A `sheep` gateway listens on TCP port 7000. There is no handshake and no
//! authentication: after connect, the client sends 48-byte little-endian
//! request headers optionally followed by a data payload, and reads a 48-byte
//! response header (carrying an `SD_RES_*` result and a `data_length`)
//! optionally followed by payload. Requests carry an `id` the server echoes,
//! so a connection pipelines freely ([`mux`]).
//!
//! A VDI is looked up by name → a 24-bit `vid` (or the whole cluster is
//! enumerated from the VDI bitmap). Its *inode* object holds the volume size,
//! the data-object size (`block_size_shift`, default 4 MiB), the replication
//! factor, and a `data_vdi_id[]` array mapping each object index to the vid
//! that owns that data object (`0` = unallocated hole). A logical byte offset
//! `off` maps to `idx = off / object_size`, `in_obj = off % object_size`, and
//! the object id `oid = (vid << 32) | idx`.
//!
//! Nothing here touches a socket: requests are made and replies are read,
//! and what goes between is the caller's.

pub mod calls;
pub mod content;
pub mod ctl;
pub mod error;
pub mod inode;
pub mod list;
pub mod mux;
pub mod open;
pub mod volume;
pub mod wire;
