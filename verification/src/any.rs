//! The closed set of in-process backends: dispatch stays monomorphized (no
//! per-IO boxing) while namespaces stay heterogeneous.

use vstd::prelude::*;

use crate::backend;
use crate::backend::{Backend, BackendError, LbaRange};
use crate::bytes;
use crate::memory::MemoryBackend;
use crate::null::NullBackend;

verus! {

/// All compiled-in backends, for heterogeneous namespace maps.
#[derive(Debug)]
pub enum AnyBackend {
    /// See [`NullBackend`].
    Null(NullBackend),
    /// See [`MemoryBackend`].
    Memory(MemoryBackend),
}

impl Backend for AnyBackend {
    open spec fn shift(&self) -> u8 {
        match self {
            AnyBackend::Null(b) => b.shift(),
            AnyBackend::Memory(b) => b.shift(),
        }
    }

    open spec fn blocks(&self) -> u64 {
        match self {
            AnyBackend::Null(b) => b.blocks(),
            AnyBackend::Memory(b) => b.blocks(),
        }
    }

    open spec fn valid(&self) -> bool {
        match self {
            AnyBackend::Null(b) => b.valid(),
            AnyBackend::Memory(b) => b.valid(),
        }
    }

    open spec fn takes(&self, slba: u64, len: nat) -> bool {
        match self {
            AnyBackend::Null(b) => b.takes(slba, len),
            AnyBackend::Memory(b) => b.takes(slba, len),
        }
    }

    fn block_shift(&self) -> (r: u8) {
        match self {
            AnyBackend::Null(b) => b.block_shift(),
            AnyBackend::Memory(b) => b.block_shift(),
        }
    }

    fn nr_blocks(&self) -> (r: u64) {
        match self {
            AnyBackend::Null(b) => b.nr_blocks(),
            AnyBackend::Memory(b) => b.nr_blocks(),
        }
    }

    fn read(&self, slba: u64, buf: &mut [u8]) -> (r: Result<(), BackendError>)
        ensures
            r == backend::range_answer(
                self.blocks(),
                slba,
                (old(buf)@.len() / backend::block_size(self.shift())) as u64,
            ),
            final(buf)@ == (if r is Err {
                old(buf)@
            } else {
                match self {
                    AnyBackend::Null(_) => bytes::zeroes(old(buf)@.len()),
                    AnyBackend::Memory(b) => b@.subrange(
                        (slba * backend::block_size(b.shift())) as int,
                        slba * backend::block_size(b.shift()) + old(buf)@.len(),
                    ),
                }
            }),
    {
        match self {
            AnyBackend::Null(b) => b.read(slba, buf),
            AnyBackend::Memory(b) => b.read(slba, buf),
        }
    }

    fn write(&mut self, slba: u64, buf: &[u8]) -> (r: Result<(), BackendError>)
        ensures
            r == backend::range_answer(
                old(self).blocks(),
                slba,
                (buf@.len() / backend::block_size(old(self).shift())) as u64,
            ),
            match *old(self) {
                AnyBackend::Null(b) => *final(self) == *old(self),
                AnyBackend::Memory(b) => *final(self) matches AnyBackend::Memory(c) && c@ == (
                if r is Ok {
                    bytes::overwritten(
                        b@,
                        (slba * backend::block_size(b.shift())) as int,
                        buf@,
                    )
                } else {
                    b@
                }),
            },
    {
        match self {
            AnyBackend::Null(b) => b.write(slba, buf),
            AnyBackend::Memory(b) => b.write(slba, buf),
        }
    }

    fn flush(&mut self) -> (r: Result<(), BackendError>)
        ensures
            *final(self) == *old(self),
            r is Ok,
    {
        match self {
            AnyBackend::Null(b) => b.flush(),
            AnyBackend::Memory(b) => b.flush(),
        }
    }

    fn discard(&mut self, ranges: &[LbaRange]) -> (r: Result<(), BackendError>)
        ensures
            *final(self) == *old(self),
            r is Ok,
    {
        match self {
            AnyBackend::Null(b) => b.discard(ranges),
            AnyBackend::Memory(b) => b.discard(ranges),
        }
    }

    fn write_zeroes(&mut self, range: LbaRange) -> (r: Result<(), BackendError>)
        ensures
            r == (if *old(self) is Null || range.nlb * backend::block_size(old(self).shift())
                <= usize::MAX {
                backend::range_answer(old(self).blocks(), range.slba, range.nlb as u64)
            } else {
                Err(BackendError::OutOfRange)
            }),
            match *old(self) {
                AnyBackend::Null(b) => *final(self) == *old(self),
                AnyBackend::Memory(b) => *final(self) matches AnyBackend::Memory(c) && c@ == (
                if r is Ok {
                    bytes::overwritten(
                        b@,
                        (range.slba * backend::block_size(b.shift())) as int,
                        bytes::zeroes((range.nlb * backend::block_size(b.shift())) as nat),
                    )
                } else {
                    b@
                }),
            },
    {
        match self {
            AnyBackend::Null(b) => b.write_zeroes(range),
            AnyBackend::Memory(b) => b.write_zeroes(range),
        }
    }
}

} // verus!
