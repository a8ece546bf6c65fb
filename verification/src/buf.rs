//! Page-aligned byte buffers.
//!
//! Slot data buffers must satisfy `O_DIRECT` alignment (logical block size; we
//! use 4 KiB which covers every device), while a `Vec<u8>` may start anywhere:
//! a buffer is allocated with a granule to spare, and starts at the first
//! boundary in it.

use vstd::prelude::*;
use vstd::slice::slice_subrange;

use crate::bytes;
use crate::bytes::zero_bytes;

verus! {

/// Alignment for all data buffers: max page / LBA size we support.
pub const BUF_ALIGN: usize = 4096;

/// `len` rounded up to whole granules, one at least.
pub open spec fn granules(len: nat) -> nat {
    if len == 0 {
        4096
    } else {
        (len + 4095) / 4096 * 4096
    }
}

/// The address of the first byte of `v`, as a number: `Vec::as_ptr`. Nothing is
/// claimed of the result, which is the allocator's choice; that the number is
/// where the bytes lie is left unsaid. What [`AlignedBuf::cut`] makes of it is
/// proved for every number.
#[verifier::external_body]
fn address(v: &Vec<u8>) -> (r: usize) {
    v.as_ptr() as usize
}

/// How many bytes past the address `addr` the next [`BUF_ALIGN`] boundary is.
pub fn to_boundary(addr: usize) -> (r: usize)
    ensures
        r < BUF_ALIGN,
        (addr + r) % 4096 == 0,
{
    let past: usize = addr % BUF_ALIGN;
    if past == 0 {
        0
    } else {
        BUF_ALIGN - past
    }
}

/// A heap buffer aligned to [`BUF_ALIGN`]; the view is its bytes.
#[derive(Debug)]
pub struct AlignedBuf {
    /// The allocation.
    bytes: Vec<u8>,
    /// The bytes before the boundary, which are not used.
    lead: usize,
}

impl View for AlignedBuf {
    type V = Seq<u8>;

    closed spec fn view(&self) -> Seq<u8> {
        self.bytes@.skip(self.lead as int)
    }
}

impl AlignedBuf {
    /// The boundary lies in the allocation.
    pub closed spec fn wf(&self) -> bool {
        self.lead <= self.bytes@.len()
    }

    /// How far into its allocation the buffer starts.
    pub closed spec fn lead(&self) -> nat {
        self.lead as nat
    }

    /// The `size` bytes of `bytes` from the first boundary on, where the first
    /// byte of `bytes` lies at address `addr`.
    pub fn cut(bytes: Vec<u8>, addr: usize, size: usize) -> (r: AlignedBuf)
        requires
            size + 4095 <= bytes@.len(),
        ensures
            r.wf(),
            r.lead() < 4096,
            (addr + r.lead()) % 4096 == 0,
            r@ == bytes@.subrange(r.lead() as int, r.lead() + size),
    {
        let ghost all = bytes@;
        let mut bytes = bytes;
        let room: usize = bytes.len();
        assert(size + 4095 <= room);
        let lead: usize = to_boundary(addr);
        bytes.truncate(lead + size);
        assert(bytes@.skip(lead as int) =~= all.subrange(lead as int, lead + size));
        AlignedBuf { bytes, lead }
    }

    /// Allocate `len` zeroed bytes (rounded up to the alignment).
    pub fn zeroed(len: usize) -> (r: AlignedBuf)
        requires
            granules(len as nat) <= isize::MAX,
        ensures
            r.wf(),
            r.lead() < 4096,
            r@ == bytes::zeroes(granules(len as nat)),
    {
        let size: usize = if len == 0 {
            BUF_ALIGN
        } else if len % BUF_ALIGN == 0 {
            len
        } else {
            (len / BUF_ALIGN + 1) * BUF_ALIGN
        };
        let bytes: Vec<u8> = zero_bytes(size + (BUF_ALIGN - 1));
        let addr: usize = address(&bytes);
        let r = AlignedBuf::cut(bytes, addr, size);
        assert(r@ =~= bytes::zeroes(size as nat));
        r
    }

    /// Allocated length (the requested size rounded up to alignment).
    pub fn len(&self) -> (r: usize)
        requires
            self.wf(),
        ensures
            r == self@.len(),
    {
        self.bytes.len() - self.lead
    }

    /// Never true in practice (allocations are at least one page).
    pub fn is_empty(&self) -> (r: bool)
        requires
            self.wf(),
        ensures
            r == (self@.len() == 0),
    {
        self.len() == 0
    }

    /// The bytes.
    pub fn as_slice(&self) -> (r: &[u8])
        requires
            self.wf(),
        ensures
            r@ == self@,
    {
        slice_subrange(self.bytes.as_slice(), self.lead, self.bytes.len())
    }

    /// The bytes, to be written.
    pub fn as_mut_slice(&mut self) -> (r: &mut [u8])
        requires
            old(self).wf(),
        ensures
            final(self).wf(),
            final(self).lead() == old(self).lead(),
            r@ == old(self)@,
            final(self)@ == final(r)@,
    {
        let lead: usize = self.lead;
        let (_, r) = self.bytes.as_mut_slice().split_at_mut(lead);
        r
    }
}

/// A buffer has room for what was asked, ends on a boundary, and has less than a
/// granule to spare; it is never empty.
pub proof fn lemma_granules(len: nat)
    ensures
        granules(len) >= len,
        granules(len) >= 4096,
        granules(len) % 4096 == 0,
        len > 0 ==> granules(len) < len + 4096,
        len == 0 ==> granules(len) == 4096,
{
}

} // verus!
