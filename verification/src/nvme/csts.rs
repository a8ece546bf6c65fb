//! Controller Status (CSTS) register bits.

use vstd::prelude::*;

verus! {

/// Ready.
pub const RDY: u32 = 0x1;

/// Controller fatal status.
pub const CFS: u32 = 0x2;

/// Shutdown processing complete.
pub const SHST_COMPLETE: u32 = 0x8;

} // verus!
