//! The parts of NVMe commands and completions the target reads and writes.

use vstd::prelude::*;

use crate::backend::LbaRange;
use crate::bytes;
use crate::bytes::read_le;

pub mod cc;
pub mod csts;
pub mod io_opcode;
pub mod status;

verus! {

/// Largest queue we accept (CAP.MQES advertises this minus one).
///
/// Each slot preallocates a data buffer (128 KiB on IO queues), so this
/// directly bounds per-queue memory: 256 entries → ≤ 32 MiB per IO queue. The
/// host sizes its queues to `min(desired, MQES + 1)`; Connect requests beyond
/// this are rejected (a hostile host ignores the advertised MQES, so the limit
/// is enforced, not just advertised).
pub const MAX_QUEUE_ENTRIES: u16 = 256;

/// In-capsule data we advertise via IOCCSZ (16 KiB).
pub const INLINE_DATA_SIZE: u32 = 0x4000;

/// AEC bit: namespace-attribute-changed notices.
pub const AEN_CFG_NS_ATTR: u32 = 0x100;

/// A submission queue entry.
#[derive(Debug, Clone, Copy, PartialEq, Eq, Structural)]
pub struct Sqe {
    /// Opcode.
    pub opcode: u8,
    /// Command identifier.
    pub cid: u16,
    /// Namespace id.
    pub nsid: u32,
    /// Length the data pointer's SGL descriptor declares.
    pub dptr_length: u32,
    /// Command dword 10.
    pub cdw10: u32,
    /// Command dword 11.
    pub cdw11: u32,
    /// Command dword 12.
    pub cdw12: u32,
}

/// The entry with every field zero.
pub open spec fn blank() -> Sqe {
    Sqe { opcode: 0, cid: 0, nsid: 0, dptr_length: 0, cdw10: 0, cdw11: 0, cdw12: 0 }
}

impl Sqe {
    /// The entry with every field zero.
    pub fn zeroed() -> (r: Sqe)
        ensures
            r == blank(),
    {
        Sqe { opcode: 0, cid: 0, nsid: 0, dptr_length: 0, cdw10: 0, cdw11: 0, cdw12: 0 }
    }
}

/// A completion queue entry.
#[derive(Debug, Clone, Copy, PartialEq, Eq, Structural)]
pub struct Cqe {
    /// Command-specific result.
    pub result: u64,
    /// Submission queue head.
    pub sqhd: u16,
    /// Submission queue id.
    pub sqid: u16,
    /// Command identifier.
    pub cid: u16,
    /// Status code.
    pub status: u16,
}

impl Cqe {
    /// The completion of command `cid` on queue `sqid`.
    pub fn new(result: u64, sqhd: u16, sqid: u16, cid: u16, status: u16) -> (r: Cqe)
        ensures
            r == (Cqe { result, sqhd, sqid, cid, status }),
    {
        Cqe { result, sqhd, sqid, cid, status }
    }
}

/// What a Read, Write or Write Zeroes asks for.
#[derive(Debug, Clone, Copy, PartialEq, Eq, Structural)]
pub struct RwCommand {
    /// First logical block.
    pub slba: u64,
    /// Number of logical blocks, 0-based.
    pub nlb: u16,
    /// Force unit access.
    pub fua: bool,
}

/// The fields of a read/write command: the first block in dwords 10 and 11,
/// the 0-based count in the low half of dword 12, force-unit-access in its
/// bit 30.
pub open spec fn rw_of(sqe: Sqe) -> RwCommand {
    RwCommand {
        slba: (sqe.cdw10 + sqe.cdw11 * 0x1_0000_0000) as u64,
        nlb: (sqe.cdw12 % 0x1_0000) as u16,
        fua: sqe.cdw12 / 0x4000_0000 % 2 == 1,
    }
}

impl RwCommand {
    /// Take the command's fields out of its entry.
    pub fn parse(sqe: &Sqe) -> (r: RwCommand)
        ensures
            r == rw_of(*sqe),
    {
        RwCommand {
            slba: sqe.cdw10 as u64 + sqe.cdw11 as u64 * 0x1_0000_0000,
            nlb: (sqe.cdw12 % 0x1_0000) as u16,
            fua: sqe.cdw12 / 0x4000_0000 % 2 == 1,
        }
    }
}

/// Bytes in a Dataset Management range: attributes, block count, first block.
pub const DSM_RANGE_SIZE: usize = 16;

/// Range `i` of a Dataset Management payload.
pub open spec fn dsm_range(data: Seq<u8>, i: int) -> LbaRange {
    LbaRange {
        slba: bytes::le_value(data.subrange(i * 16 + 8, i * 16 + 16)) as u64,
        nlb: bytes::le_value(data.subrange(i * 16 + 4, i * 16 + 8)) as u32,
    }
}

/// The first `nr` ranges of a Dataset Management payload.
pub fn dsm_ranges(data: &[u8], nr: usize) -> (r: Vec<LbaRange>)
    requires
        nr * 16 <= data@.len(),
    ensures
        r@ == Seq::new(nr as nat, |i: int| dsm_range(data@, i)),
{
    let mut r: Vec<LbaRange> = Vec::new();
    let n: usize = data.len();
    proof {
        bytes::lemma_pow256();
    }
    for i in 0..nr
        invariant
            n == data@.len(),
            nr * 16 <= n,
            r@ == Seq::new(i as nat, |k: int| dsm_range(data@, k)),
            bytes::pow256(4) == 0x1_0000_0000,
            bytes::pow256(8) == 0x1_0000_0000_0000_0000,
    {
        let slba: u64 = read_le(data, i * 16 + 8, 8) as u64;
        let nlb: u32 = read_le(data, i * 16 + 4, 4) as u32;
        r.push(LbaRange { slba, nlb });
        assert(r@ =~= Seq::new((i + 1) as nat, |k: int| dsm_range(data@, k)));
    }
    r
}

/// Where a read/write command's fields stand: dword 10 is the low half of the
/// first block and dword 11 its high half; the low 16 bits of dword 12 are the
/// count, and its bit 30 asks for force unit access.
pub proof fn lemma_rw_fields(sqe: Sqe)
    ensures
        rw_of(sqe).slba as int % 0x1_0000_0000 == sqe.cdw10,
        rw_of(sqe).slba as int / 0x1_0000_0000 == sqe.cdw11,
        rw_of(sqe).nlb as u32 == sqe.cdw12 & 0xffff,
        rw_of(sqe).fua <==> sqe.cdw12 & 0x4000_0000 != 0,
{
    let w = sqe.cdw12;
    assert(w % 0x1_0000 == w & 0xffff && (w / 0x4000_0000 % 2 == 1 <==> w & 0x4000_0000 != 0))
        by (bit_vector);
}

/// A Dataset Management range is read back as it was written: four bytes of
/// attributes that say nothing here, the count, then the first block.
pub proof fn lemma_dsm_range(pre: Seq<u8>, attrs: Seq<u8>, slba: u64, nlb: u32, tail: Seq<u8>, i: int)
    requires
        0 <= i,
        pre.len() == i * 16,
        attrs.len() == 4,
    ensures
        dsm_range(
            pre + attrs + bytes::le(nlb as nat, 4) + bytes::le(slba as nat, 8) + tail,
            i,
        ) == (LbaRange { slba, nlb }),
{
    let n = bytes::le(nlb as nat, 4);
    let s = bytes::le(slba as nat, 8);
    bytes::lemma_pow256();
    bytes::lemma_le(nlb as nat, 4);
    bytes::lemma_le(slba as nat, 8);
    let d = pre + attrs + n + s + tail;
    assert(d.subrange(i * 16 + 8, i * 16 + 16) =~= s);
    assert(d.subrange(i * 16 + 4, i * 16 + 8) =~= n);
}

/// In the blank entry every field is zero.
pub proof fn lemma_blank()
    ensures
        blank().opcode == 0 && blank().cid == 0 && blank().nsid == 0 && blank().dptr_length == 0,
        blank().cdw10 == 0 && blank().cdw11 == 0 && blank().cdw12 == 0,
{
}

} // verus!
