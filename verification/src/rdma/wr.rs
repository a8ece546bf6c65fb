//! Low-level RDMA work-request primitives: the wr_id encoding ([`WrKind`] /
//! [`WrId`]) and the single-SGE-per-run work requests of a data transfer.

use vstd::prelude::*;

use crate::file;
use crate::file::fill_iovecs;
use crate::pool::{Seg, SlotData};

verus! {

/// The class of an RDMA work request, encoded in a wr_id's high byte (bits
/// 40..48); the low 32 bits carry the slot tag or recv-buffer index. Every
/// wr_id is built with [`WrId::encode`] and every completion decoded with
/// [`WrId::decode`].
#[derive(Debug, Clone, Copy, PartialEq, Eq, Structural)]
pub enum WrKind {
    /// Command-capsule RECV (low bits = recv-buffer index).
    Recv,
    /// Response-capsule SEND (low bits = slot tag).
    Send,
    /// Read-data RDMA WRITE, target → host (low bits = slot tag).
    Write,
    /// Write-data RDMA READ, host → target (low bits = slot tag).
    Read,
}

/// A class's code.
pub open spec fn code_of(k: WrKind) -> u64 {
    match k {
        WrKind::Recv => 1,
        WrKind::Send => 2,
        WrKind::Write => 3,
        WrKind::Read => 4,
    }
}

/// The class of a raw wr_id's code, if there is one.
pub open spec fn kind_of(code: u64) -> Option<WrKind> {
    if code == 1 {
        Some(WrKind::Recv)
    } else if code == 2 {
        Some(WrKind::Send)
    } else if code == 3 {
        Some(WrKind::Write)
    } else if code == 4 {
        Some(WrKind::Read)
    } else {
        None
    }
}

impl WrKind {
    /// High-byte code.
    pub fn code(self) -> (r: u64)
        ensures
            r == code_of(self),
    {
        match self {
            WrKind::Recv => 1,
            WrKind::Send => 2,
            WrKind::Write => 3,
            WrKind::Read => 4,
        }
    }

    /// The class named by a raw wr_id's high byte, or `None` if it is unknown
    /// (impossible for an id we posted — a defensive guard, not a wire case).
    pub fn from_id(id: u64) -> (r: Option<WrKind>)
        ensures
            r == kind_of((id >> 40u64) & 0xff),
    {
        let code: u64 = (id >> 40u64) & 0xff;
        if code == 1 {
            Some(WrKind::Recv)
        } else if code == 2 {
            Some(WrKind::Send)
        } else if code == 3 {
            Some(WrKind::Write)
        } else if code == 4 {
            Some(WrKind::Read)
        } else {
            None
        }
    }

    /// Short label for completion-error diagnostics.
    pub fn name(self) -> (r: &'static str)
        ensures
            r@ == (match self {
                WrKind::Recv => "RECV"@,
                WrKind::Send => "SEND"@,
                WrKind::Write => "WRITE"@,
                WrKind::Read => "READ"@,
            }),
    {
        match self {
            WrKind::Recv => "RECV",
            WrKind::Send => "SEND",
            WrKind::Write => "WRITE",
            WrKind::Read => "READ",
        }
    }
}

/// A decoded work-request id: its [`WrKind`] class and the low-32-bit
/// tag/index.
#[derive(Debug, Clone, Copy, PartialEq, Eq, Structural)]
pub struct WrId {
    /// Class.
    pub kind: WrKind,
    /// Tag or index.
    pub low: u32,
}

/// The raw id of a work request.
pub open spec fn raw_of(w: WrId) -> u64 {
    (code_of(w.kind) << 40u64) | (w.low as u64)
}

/// What a raw id is, if it is one of ours.
pub open spec fn decoded(id: u64) -> Option<WrId> {
    match kind_of((id >> 40u64) & 0xff) {
        Some(kind) => Some(WrId { kind, low: (id & 0xffff_ffff) as u32 }),
        None => None,
    }
}

impl WrId {
    /// The id of `low` in class `kind`.
    pub fn new(kind: WrKind, low: u32) -> (r: WrId)
        ensures
            r == (WrId { kind, low }),
    {
        WrId { kind, low }
    }

    /// Pack into the raw `wr_id` posted on a work request.
    pub fn encode(self) -> (r: u64)
        ensures
            r == raw_of(self),
    {
        (self.kind.code() << 40u64) | self.low as u64
    }

    /// Unpack a completion's raw `wr_id`, or `None` if its class byte is
    /// unknown.
    pub fn decode(id: u64) -> (r: Option<WrId>)
        ensures
            r == decoded(id),
    {
        match WrKind::from_id(id) {
            Some(kind) => {
                let low: u64 = id & 0xffff_ffff;
                assert(id & 0xffff_ffff <= 0xffff_ffff) by (bit_vector);
                Some(WrId { kind, low: low as u32 })
            },
            None => None,
        }
    }
}

/// Completions find the work request they belong to: every id comes back from
/// its raw form, and no two ids share one.
pub proof fn lemma_wr_id_round_trip(a: WrId, b: WrId)
    ensures
        decoded(raw_of(a)) == Some(a),
        raw_of(a) == raw_of(b) <==> a == b,
        raw_of(a) == code_of(a.kind) * 0x100_0000_0000 + a.low,
{
    lemma_raw_bits(code_of(a.kind), a.low);
    lemma_raw_bits(code_of(b.kind), b.low);
}

proof fn lemma_raw_bits(code: u64, low: u32)
    by (bit_vector)
    requires
        code <= 4,
    ensures
        ((((code << 40u64) | (low as u64)) >> 40u64) & 0xff) == code,
        (((code << 40u64) | (low as u64)) & 0xffff_ffff) == low as u64,
        ((code << 40u64) | (low as u64)) == code * 0x100_0000_0000 + low,
{
}

/// One registered run of memory.
#[derive(Debug, Clone, Copy, PartialEq, Eq, Structural)]
pub struct Sge {
    /// Where it starts in the registered arena.
    pub addr: u64,
    /// Bytes.
    pub length: u32,
    /// The arena's key.
    pub lkey: u32,
}

/// The run of a segment.
pub open spec fn sge_of(s: Seg, lkey: u32) -> Sge {
    Sge { addr: s.off as u64, length: s.len as u32, lkey }
}

/// The slot data's segments covering its first `len` bytes, tagged with
/// `lkey`. The callers emit one single-SGE work request per run.
pub fn fill_sges(data: &SlotData, len: usize, lkey: u32) -> (r: Vec<Sge>)
    requires
        forall|i: int|
            0 <= i < data.runs().len() ==> (#[trigger] data.runs()[i]).len <= u32::MAX,
    ensures
        r@ == file::clamped(data.runs(), 0, len as nat).map_values(|s: Seg| sge_of(s, lkey)),
{
    let runs = fill_iovecs(data.segs(), len);
    proof {
        lemma_clamped_small(data.runs(), 0, len as nat);
    }
    let mut out: Vec<Sge> = Vec::new();
    let n: usize = runs.len();
    for i in 0..n
        invariant
            n == runs@.len(),
            forall|k: int| 0 <= k < runs@.len() ==> (#[trigger] runs@[k]).len <= u32::MAX,
            out@ == runs@.take(i as int).map_values(|s: Seg| sge_of(s, lkey)),
    {
        out.push(Sge { addr: runs[i].off as u64, length: runs[i].len as u32, lkey });
        assert(out@ =~= runs@.take(i + 1).map_values(|s: Seg| sge_of(s, lkey)));
    }
    assert(runs@.take(n as int) =~= runs@);
    out
}

proof fn lemma_clamped_small(segs: Seq<Seg>, k: int, total: nat)
    requires
        0 <= k <= segs.len(),
        forall|i: int| 0 <= i < segs.len() ==> (#[trigger] segs[i]).len <= u32::MAX,
    ensures
        forall|i: int|
            0 <= i < file::clamped(segs, k, total).len() ==> (#[trigger] file::clamped(
                segs,
                k,
                total,
            )[i]).len <= u32::MAX,
    decreases segs.len() - k,
{
    if k < segs.len() && total > 0 {
        let take = if total < segs[k].len {
            total as usize
        } else {
            segs[k].len
        };
        let rest = file::clamped(segs, k + 1, (total - take) as nat);
        lemma_clamped_small(segs, k + 1, (total - take) as nat);
        let all = file::clamped(segs, k, total);
        assert forall|i: int| 0 <= i < all.len() implies (#[trigger] all[i]).len <= u32::MAX by {
            if i > 0 {
                assert(all[i] == rest[i - 1]);
            } else {
                assert(segs[k].len <= u32::MAX);
            }
        }
    }
}

/// The one-sided op a data-transfer WR issues over a pool run.
#[derive(Debug, Clone, Copy, PartialEq, Eq, Structural)]
pub enum SgeOp {
    /// RDMA READ — pull host write-data into the slot.
    Read,
    /// RDMA WRITE — push slot read-data to the host.
    Write,
}

/// A work request over one run.
#[derive(Debug, Clone, Copy, PartialEq, Eq, Structural)]
pub struct WorkRequest {
    /// Its id.
    pub wr_id: u64,
    /// Its op.
    pub op: SgeOp,
    /// The host's key.
    pub rkey: u32,
    /// The host's address.
    pub remote: u64,
    /// The run.
    pub sge: Sge,
    /// Whether its completion is reported.
    pub signaled: bool,
}

/// Bytes of the first `k` runs.
pub open spec fn run_bytes(sges: Seq<Sge>, k: nat) -> nat
    decreases k,
{
    if k == 0 {
        0
    } else {
        run_bytes(sges, (k - 1) as nat) + sges[k - 1].length as nat
    }
}

/// The work request of run `i`.
pub open spec fn run_request(
    wr_id: u64,
    op: SgeOp,
    rkey: u32,
    base: u64,
    sges: Seq<Sge>,
    i: int,
) -> WorkRequest {
    WorkRequest {
        wr_id,
        op,
        rkey,
        remote: (base + run_bytes(sges, i as nat)) as u64,
        sge: sges[i],
        signaled: i + 1 == sges.len(),
    }
}

/// One single-SGE work request per contiguous pool run in `sges`, advancing
/// the remote address run by run; only the last run is signaled (so one
/// completion per command).
///
/// Single-SGE per run on purpose: a provider may compute a multi-SGE WR's
/// total length wrongly, inflating the wire length of a fragmented lease.
/// Single-SGE WRs are immune on every provider, and the common unfragmented
/// lease still posts exactly one WR.
pub fn post_sge_runs(wr_id: u64, op: SgeOp, rkey: u32, base: u64, sges: &Vec<Sge>) -> (r: Vec<
    WorkRequest,
>)
    requires
        base + run_bytes(sges@, sges@.len()) <= u64::MAX,
    ensures
        r@.len() == sges@.len(),
        forall|i: int|
            0 <= i < sges@.len() ==> #[trigger] r@[i] == run_request(
                wr_id,
                op,
                rkey,
                base,
                sges@,
                i,
            ),
{
    let mut out: Vec<WorkRequest> = Vec::new();
    let n: usize = sges.len();
    let mut remote: u64 = base;
    for i in 0..n
        invariant
            n == sges@.len(),
            out@.len() == i,
            remote == base + run_bytes(sges@, i as nat),
            base + run_bytes(sges@, sges@.len()) <= u64::MAX,
            forall|k: int|
                0 <= k < i ==> #[trigger] out@[k] == run_request(
                    wr_id,
                    op,
                    rkey,
                    base,
                    sges@,
                    k,
                ),
    {
        proof {
            lemma_run_bytes_grow(sges@, (i + 1) as nat, n as nat);
        }
        out.push(
            WorkRequest { wr_id, op, rkey, remote, sge: sges[i], signaled: i + 1 == n },
        );
        remote = remote + sges[i].length as u64;
    }
    out
}

proof fn lemma_run_bytes_grow(sges: Seq<Sge>, a: nat, b: nat)
    requires
        a <= b,
    ensures
        run_bytes(sges, a) <= run_bytes(sges, b),
    decreases b,
{
    if a < b {
        lemma_run_bytes_grow(sges, a, (b - 1) as nat);
    }
}

/// The runs of a transfer tile the host's buffer: each starts where the one
/// before it ends, and exactly one of them, the last, is signaled.
pub proof fn lemma_runs_tile(wr_id: u64, op: SgeOp, rkey: u32, base: u64, sges: Seq<Sge>, i: int)
    requires
        0 <= i < sges.len(),
        base + run_bytes(sges, sges.len()) <= u64::MAX,
    ensures
        run_request(wr_id, op, rkey, base, sges, 0).remote == base,
        i + 1 < sges.len() ==> run_request(wr_id, op, rkey, base, sges, i + 1).remote
            == run_request(wr_id, op, rkey, base, sges, i).remote + sges[i].length,
        run_request(wr_id, op, rkey, base, sges, i).signaled <==> i == sges.len() - 1,
{
    lemma_run_bytes_grow(sges, i as nat, sges.len());
    lemma_run_bytes_grow(sges, (i + 1) as nat, sges.len());
}

/// Every request of a transfer is one for that transfer: its id, its op and the
/// host's key, over one run each, in order.
pub proof fn lemma_run_request(wr_id: u64, op: SgeOp, rkey: u32, base: u64, sges: Seq<Sge>, i: int)
    requires
        0 <= i < sges.len(),
        base + run_bytes(sges, sges.len()) <= u64::MAX,
    ensures
        ({
            let w = run_request(wr_id, op, rkey, base, sges, i);
            &&& w.wr_id == wr_id
            &&& w.op == op
            &&& w.rkey == rkey
            &&& w.sge == sges[i]
            &&& base <= w.remote
            &&& w.remote + w.sge.length <= base + run_bytes(sges, sges.len())
        }),
{
    lemma_run_bytes_grow(sges, i as nat, sges.len());
    lemma_run_bytes_grow(sges, (i + 1) as nat, sges.len());
}

/// The runs of a slot's first `len` bytes hold just so many bytes, or all there
/// are, each where its segment lies and under the arena's key.
pub proof fn lemma_sges(segs: Seq<Seg>, len: nat, lkey: u32)
    requires
        forall|i: int| 0 <= i < segs.len() ==> (#[trigger] segs[i]).len <= u32::MAX,
    ensures
        ({
            let runs = file::clamped(segs, 0, len);
            let sges = runs.map_values(|s: Seg| sge_of(s, lkey));
            &&& sges.len() == runs.len()
            &&& run_bytes(sges, sges.len()) == (if len < file::seg_bytes(segs, 0) {
                len
            } else {
                file::seg_bytes(segs, 0)
            })
            &&& forall|i: int|
                0 <= i < sges.len() ==> {
                    &&& (#[trigger] sges[i]).addr == runs[i].off
                    &&& sges[i].length == runs[i].len
                    &&& sges[i].lkey == lkey
                }
        }),
{
    let runs = file::clamped(segs, 0, len);
    let sges = runs.map_values(|s: Seg| sge_of(s, lkey));
    lemma_clamped_small(segs, 0, len);
    file::lemma_clamped(segs, 0, len);
    assert forall|i: int| 0 <= i < sges.len() implies {
        &&& (#[trigger] sges[i]).addr == runs[i].off
        &&& sges[i].length == runs[i].len
        &&& sges[i].lkey == lkey
    } by {
        assert(runs[i].len <= u32::MAX);
    }
    lemma_run_bytes_from(runs, sges, 0);
}

proof fn lemma_run_bytes_from(runs: Seq<Seg>, sges: Seq<Sge>, k: int)
    requires
        runs.len() == sges.len(),
        0 <= k <= runs.len(),
        forall|i: int| 0 <= i < sges.len() ==> (#[trigger] sges[i]).length == runs[i].len,
    ensures
        run_bytes(sges, sges.len()) == run_bytes(sges, k as nat) + file::seg_bytes(runs, k),
    decreases runs.len() - k,
{
    if k < runs.len() {
        lemma_run_bytes_from(runs, sges, k + 1);
        assert(sges[k].length == runs[k].len);
    }
}

} // verus!
