//! Controller Configuration (CC) register bits.

use vstd::prelude::*;

verus! {

/// Enable.
pub const EN: u32 = 0x1;

/// Shutdown notification, both bits.
pub const SHN_MASK: u32 = 0xc000;

/// Shutdown notification: normal.
pub const SHN_NORMAL: u32 = 0x4000;

/// Where the IO submission queue entry size stands.
pub const IOSQES_SHIFT: u32 = 16;

/// Where the IO completion queue entry size stands.
pub const IOCQES_SHIFT: u32 = 20;

} // verus!
