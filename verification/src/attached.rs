//! Storage whose IO is performed outside: a file, a block device, a volume on
//! a cluster. This is what a namespace table holds of it: its geometry, and
//! the id it is found by. What a command asks of it is handed out as an
//! operation (see [`crate::io`]) rather than performed here.

use vstd::prelude::*;

use crate::backend::{Backend, BackendError, LbaRange};

verus! {

/// See module docs.
#[derive(Debug)]
pub struct Attached {
    block_shift: u8,
    nr_blocks: u64,
    id: u64,
}

impl Attached {
    /// What the storage is found by.
    pub closed spec fn name(&self) -> u64 {
        self.id
    }

    /// Storage of `nr_blocks` blocks, found by `id`.
    pub fn new(id: u64, block_shift: u8, nr_blocks: u64) -> (r: Attached)
        requires
            block_shift < 64,
        ensures
            r.valid(),
            r.name() == id,
            r.shift() == block_shift,
            r.blocks() == nr_blocks,
    {
        Attached { block_shift, nr_blocks, id }
    }

    /// What the storage is found by.
    pub fn id(&self) -> (r: u64)
        ensures
            r == self.name(),
    {
        self.id
    }
}

impl Backend for Attached {
    closed spec fn shift(&self) -> u8 {
        self.block_shift
    }

    closed spec fn blocks(&self) -> u64 {
        self.nr_blocks
    }

    closed spec fn valid(&self) -> bool {
        self.block_shift < 64
    }

    open spec fn takes(&self, slba: u64, len: nat) -> bool {
        true
    }

    fn block_shift(&self) -> (r: u8) {
        self.block_shift
    }

    fn nr_blocks(&self) -> (r: u64) {
        self.nr_blocks
    }

    fn read(&self, slba: u64, buf: &mut [u8]) -> (r: Result<(), BackendError>)
        ensures
            r == Err::<(), BackendError>(BackendError::Unsupported),
            final(buf)@ == old(buf)@,
    {
        Err(BackendError::Unsupported)
    }

    fn write(&mut self, slba: u64, buf: &[u8]) -> (r: Result<(), BackendError>)
        ensures
            r == Err::<(), BackendError>(BackendError::Unsupported),
            *final(self) == *old(self),
    {
        Err(BackendError::Unsupported)
    }

    fn flush(&mut self) -> (r: Result<(), BackendError>)
        ensures
            r == Err::<(), BackendError>(BackendError::Unsupported),
            *final(self) == *old(self),
    {
        Err(BackendError::Unsupported)
    }

    fn discard(&mut self, ranges: &[LbaRange]) -> (r: Result<(), BackendError>)
        ensures
            r == Err::<(), BackendError>(BackendError::Unsupported),
            *final(self) == *old(self),
    {
        Err(BackendError::Unsupported)
    }

    fn write_zeroes(&mut self, range: LbaRange) -> (r: Result<(), BackendError>)
        ensures
            r == Err::<(), BackendError>(BackendError::Unsupported),
            *final(self) == *old(self),
    {
        Err(BackendError::Unsupported)
    }
}

} // verus!
