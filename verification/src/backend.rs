//! The storage backend abstraction.
//!
//! Backends know nothing about NVMe: they expose block-addressed
//! read/write/flush/discard/write-zeroes on a fixed-geometry device.

use vstd::arithmetic::power2::*;
use vstd::bits::*;
use vstd::prelude::*;

verus! {

/// A contiguous LBA range (discard / write-zeroes).
#[derive(Debug, Clone, Copy, PartialEq, Eq, Structural)]
pub struct LbaRange {
    /// First logical block.
    pub slba: u64,
    /// Number of logical blocks (1-based count).
    pub nlb: u32,
}

/// Backend failure, mapped to NVMe status by the dispatcher.
#[derive(Debug, Clone, Copy, PartialEq, Eq, Structural)]
pub enum BackendError {
    /// Access beyond end of device.
    OutOfRange,
    /// Out of space (thin backing store).
    NoSpace,
    /// Operation not supported by this backend.
    Unsupported,
    /// IO error (errno).
    Io(i32),
}

/// Bytes in a logical block of log2 size `shift`.
pub open spec fn block_size(shift: u8) -> nat {
    pow2(shift as nat)
}

/// Whether `nlb` blocks from `slba` on end by the last of `blocks`.
pub open spec fn in_range(blocks: u64, slba: u64, nlb: u64) -> bool {
    slba + nlb <= blocks
}

/// The answer to a request for `nlb` blocks from `slba` on that depends on its
/// range alone.
pub open spec fn range_answer(blocks: u64, slba: u64, nlb: u64) -> Result<(), BackendError> {
    if in_range(blocks, slba, nlb) {
        Ok(())
    } else {
        Err(BackendError::OutOfRange)
    }
}

/// Bounds-check an LBA range against a device of `blocks` blocks.
pub fn check_blocks(blocks: u64, slba: u64, nlb: u64) -> (r: Result<(), BackendError>)
    ensures
        r == range_answer(blocks, slba, nlb),
{
    if slba > blocks || nlb > blocks - slba {
        return Err(BackendError::OutOfRange);
    }
    Ok(())
}

/// The whole blocks of log2 size `shift` in `n` bytes.
pub fn blocks_in(n: u64, shift: u8) -> (r: u64)
    requires
        shift < 64,
    ensures
        r as nat == n as nat / block_size(shift),
        r * block_size(shift) <= n,
{
    proof {
        lemma_u64_shr_is_div(n, shift as u64);
        lemma_pow2_pos(shift as nat);
        let p = block_size(shift) as int;
        vstd::arithmetic::div_mod::lemma_fundamental_div_mod(n as int, p);
        assert((n as int / p) * p <= n) by (nonlinear_arith)
            requires
                n as int == p * (n as int / p) + n as int % p,
                0 <= n as int % p,
        ;
        vstd::arithmetic::div_mod::lemma_mod_bound(n as int, p);
    }
    n >> (shift as u64)
}

/// The bytes in `n` blocks of log2 size `shift`.
pub fn bytes_in(n: u64, shift: u8) -> (r: u64)
    requires
        shift < 64,
        n * block_size(shift) <= u64::MAX,
    ensures
        r == n * block_size(shift),
{
    proof {
        lemma_u64_shl_is_mul(n, shift as u64);
    }
    n << (shift as u64)
}

/// A range of blocks that ends by the last has its bytes among the device's.
pub proof fn lemma_in_range(blocks: u64, slba: u64, nlb: u64, shift: u8)
    requires
        in_range(blocks, slba, nlb),
    ensures
        slba * block_size(shift) + nlb * block_size(shift) <= blocks * block_size(shift),
        0 <= slba * block_size(shift),
        0 <= nlb * block_size(shift),
{
    let p = block_size(shift) as int;
    assert(slba * p + nlb * p <= blocks * p && 0 <= slba * p && 0 <= nlb * p)
        by (nonlinear_arith)
        requires
            slba + nlb <= blocks,
            0 <= p,
            0 <= slba,
            0 <= nlb,
    ;
}

/// Block storage provider for one namespace.
///
/// What is stored is the implementation's own matter: callers rely on the
/// geometry alone.
pub trait Backend: Sized {
    /// log2 of the logical block size.
    spec fn shift(&self) -> u8;

    /// Capacity in logical blocks.
    spec fn blocks(&self) -> u64;

    /// Whether the provider's own invariant holds.
    spec fn valid(&self) -> bool;

    /// Whether a transfer of `len` bytes at block `slba` is one the provider
    /// answers, be it with an error.
    spec fn takes(&self, slba: u64, len: nat) -> bool;

    /// log2 of the logical block size (9 = 512B, 12 = 4K).
    fn block_shift(&self) -> (r: u8)
        ensures
            r == self.shift(),
    ;

    /// Device capacity in logical blocks.
    fn nr_blocks(&self) -> (r: u64)
        ensures
            r == self.blocks(),
    ;

    /// Read `buf.len()` bytes starting at logical block `slba`.
    fn read(&self, slba: u64, buf: &mut [u8]) -> (r: Result<(), BackendError>)
        requires
            self.valid(),
            self.takes(slba, old(buf)@.len()),
        ensures
            final(buf)@.len() == old(buf)@.len(),
    ;

    /// Write `buf.len()` bytes starting at logical block `slba`.
    fn write(&mut self, slba: u64, buf: &[u8]) -> (r: Result<(), BackendError>)
        requires
            old(self).valid(),
            old(self).takes(slba, buf@.len()),
        ensures
            final(self).valid(),
            final(self).shift() == old(self).shift(),
            final(self).blocks() == old(self).blocks(),
    ;

    /// Persist completed writes.
    fn flush(&mut self) -> (r: Result<(), BackendError>)
        requires
            old(self).valid(),
        ensures
            final(self).valid(),
            final(self).shift() == old(self).shift(),
            final(self).blocks() == old(self).blocks(),
    ;

    /// Deallocate ranges (DSM AD). Default: accepted no-op, per spec
    /// (deallocate is a hint).
    fn discard(&mut self, ranges: &[LbaRange]) -> (r: Result<(), BackendError>)
        requires
            old(self).valid(),
        ensures
            final(self).valid(),
            final(self).shift() == old(self).shift(),
            final(self).blocks() == old(self).blocks(),
        default_ensures
            r is Ok,
            *final(self) == *old(self),
    {
        Ok(())
    }

    /// Write zeroes without data transfer.
    fn write_zeroes(&mut self, range: LbaRange) -> (r: Result<(), BackendError>)
        requires
            old(self).valid(),
        ensures
            final(self).valid(),
            final(self).shift() == old(self).shift(),
            final(self).blocks() == old(self).blocks(),
    ;

    /// Bounds-check an LBA range against the device.
    fn check_range(&self, slba: u64, nlb: u64) -> (r: Result<(), BackendError>)
        ensures
            r == range_answer(self.blocks(), slba, nlb),
    {
        check_blocks(self.nr_blocks(), slba, nlb)
    }
}

/// Whether a request for `nlb` blocks from `slba` on names block `b`.
pub open spec fn names(slba: u64, nlb: u64, b: int) -> bool {
    slba <= b < slba + nlb
}

/// A request is in range exactly where it starts on the device, or right behind
/// it, and every block that it names is a block of the device; otherwise it is
/// answered that it is out of range.
pub proof fn lemma_range_answer(blocks: u64, slba: u64, nlb: u64)
    ensures
        range_answer(blocks, slba, nlb) is Ok <==> slba <= blocks && forall|b: int| #[trigger]
            names(slba, nlb, b) ==> b < blocks,
        range_answer(blocks, slba, nlb) is Ok || range_answer(blocks, slba, nlb) == Err::<
            (),
            BackendError,
        >(BackendError::OutOfRange),
        range_answer(blocks, slba, nlb) is Ok && nlb > 0 ==> range_answer(
            blocks,
            slba,
            (nlb - 1) as u64,
        ) is Ok,
{
    if slba <= blocks && nlb > 0 {
        assert(names(slba, nlb, slba + nlb - 1));
    }
}

/// A block is twice as large for each step of its log2 size, and of one byte at
/// zero.
pub proof fn lemma_block_size(shift: u8)
    ensures
        block_size(0) == 1,
        block_size(9) == 512,
        block_size(12) == 4096,
        shift < 255 ==> block_size((shift + 1) as u8) == 2 * block_size(shift),
{
    lemma2_to64();
    lemma_pow2_unfold(shift as nat + 1);
}

} // verus!
