//! Completion status codes.

use vstd::prelude::*;

verus! {

/// Successful completion.
pub const SUCCESS: u16 = 0x0;

/// Invalid command opcode.
pub const INVALID_OPCODE: u16 = 0x1;

/// Invalid field in command.
pub const INVALID_FIELD: u16 = 0x2;

/// Data transfer error.
pub const DATA_XFER_ERROR: u16 = 0x4;

/// Internal error.
pub const INTERNAL: u16 = 0x6;

/// Invalid namespace or format.
pub const INVALID_NS: u16 = 0xb;

/// Command sequence error.
pub const CMD_SEQ_ERROR: u16 = 0xc;

/// Data SGL length invalid.
pub const DATA_SGL_LEN_INVALID: u16 = 0xf;

/// LBA out of range.
pub const LBA_RANGE: u16 = 0x80;

/// Capacity exceeded.
pub const CAP_EXCEEDED: u16 = 0x81;

/// Do not retry.
pub const DNR: u16 = 0x4000;

} // verus!
