//! Null backend: reads return zeroes, writes are discarded. The
//! protocol-overhead measurement backend.

use vstd::prelude::*;

use crate::backend;
use crate::backend::{blocks_in, Backend, BackendError, LbaRange};
use crate::bytes;

verus! {

/// See module docs.
#[derive(Debug)]
pub struct NullBackend {
    block_shift: u8,
    nr_blocks: u64,
}

impl NullBackend {
    /// `size_bytes` rounded down to a whole number of blocks.
    pub fn new(size_bytes: u64, block_shift: u8) -> (r: Self)
        requires
            block_shift < 64,
        ensures
            r.valid(),
            r.shift() == block_shift,
            r.blocks() as nat == size_bytes as nat / backend::block_size(block_shift),
    {
        NullBackend { block_shift, nr_blocks: blocks_in(size_bytes, block_shift) }
    }
}

impl Backend for NullBackend {
    closed spec fn shift(&self) -> u8 {
        self.block_shift
    }

    closed spec fn blocks(&self) -> u64 {
        self.nr_blocks
    }

    closed spec fn valid(&self) -> bool {
        self.block_shift < 64
    }

    open spec fn takes(&self, slba: u64, len: nat) -> bool {
        len <= u64::MAX
    }

    fn block_shift(&self) -> (r: u8) {
        self.block_shift
    }

    fn nr_blocks(&self) -> (r: u64) {
        self.nr_blocks
    }

    fn read(&self, slba: u64, buf: &mut [u8]) -> (r: Result<(), BackendError>)
        ensures
            r == backend::range_answer(
                self.blocks(),
                slba,
                (old(buf)@.len() / backend::block_size(self.shift())) as u64,
            ),
            final(buf)@ == (if r is Ok {
                bytes::zeroes(old(buf)@.len())
            } else {
                old(buf)@
            }),
    {
        let n: usize = buf.len();
        match self.check_range(slba, blocks_in(n as u64, self.block_shift)) {
            Ok(()) => {
                bytes::clear_bytes(buf, 0, n);
                assert(buf@ =~= bytes::zeroes(n as nat));
                Ok(())
            },
            Err(e) => Err(e),
        }
    }

    fn write(&mut self, slba: u64, buf: &[u8]) -> (r: Result<(), BackendError>)
        ensures
            *final(self) == *old(self),
            r == backend::range_answer(
                old(self).blocks(),
                slba,
                (buf@.len() / backend::block_size(old(self).shift())) as u64,
            ),
    {
        let n: usize = buf.len();
        self.check_range(slba, blocks_in(n as u64, self.block_shift))
    }

    fn flush(&mut self) -> (r: Result<(), BackendError>)
        ensures
            *final(self) == *old(self),
            r is Ok,
    {
        Ok(())
    }

    fn write_zeroes(&mut self, range: LbaRange) -> (r: Result<(), BackendError>)
        ensures
            *final(self) == *old(self),
            r == backend::range_answer(old(self).blocks(), range.slba, range.nlb as u64),
    {
        self.check_range(range.slba, range.nlb as u64)
    }
}

} // verus!
