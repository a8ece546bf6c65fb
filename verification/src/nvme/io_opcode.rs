//! NVM command set opcodes.

use vstd::prelude::*;

verus! {

/// Flush.
pub const FLUSH: u8 = 0x0;

/// Write.
pub const WRITE: u8 = 0x1;

/// Read.
pub const READ: u8 = 0x2;

/// Write Zeroes.
pub const WRITE_ZEROES: u8 = 0x8;

/// Dataset Management.
pub const DSM: u8 = 0x9;

} // verus!
