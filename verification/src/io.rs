//! IO command execution: Read, Write, Flush, Write Zeroes, DSM.
//!
//! By the time a command reaches a slot task, the transport has already
//! gathered all H2C payload into the slot buffer (in-capsule or R2T), so what
//! is here only validates, names the backend operation to carry out, and
//! reports status: [`execute`] takes a command up to its first backend
//! operation or to its outcome, [`resume`] goes on with the operation's
//! result.

use vstd::prelude::*;

use crate::backend;
use crate::backend::{bytes_in, check_blocks, Backend, BackendError, LbaRange};
use crate::bytes;
use crate::nvme;
use crate::nvme::{dsm_ranges, io_opcode, status, Cqe, RwCommand, Sqe};
use crate::queue;
use crate::queue::{stat_add, NvmeQueue, QueueStats};
use crate::slotq::Slot;
use crate::subsystem;
use crate::subsystem::{NsCache, Subsystem};

verus! {

/// NVMe status code for a backend failure.
pub open spec fn status_of(err: BackendError) -> u16 {
    match err {
        BackendError::OutOfRange => status::LBA_RANGE | status::DNR,
        BackendError::NoSpace => status::CAP_EXCEEDED | status::DNR,
        BackendError::Unsupported => status::INVALID_OPCODE | status::DNR,
        BackendError::Io(_) => status::INTERNAL | status::DNR,
    }
}

/// NVMe status code for a backend failure. Lives here — not on the `Backend`
/// trait — because the trait is shared with non-NVMe transports.
pub fn nvme_status(err: BackendError) -> (r: u16)
    ensures
        r == status_of(err),
{
    match err {
        BackendError::OutOfRange => status::LBA_RANGE | status::DNR,
        BackendError::NoSpace => status::CAP_EXCEEDED | status::DNR,
        BackendError::Unsupported => status::INVALID_OPCODE | status::DNR,
        BackendError::Io(_) => status::INTERNAL | status::DNR,
    }
}

/// What the host is sent for a command: its completion, and how many bytes of
/// the slot buffer go before it.
#[derive(Debug, Clone, Copy, PartialEq, Eq, Structural)]
pub struct Outcome {
    /// The completion.
    pub cqe: Cqe,
    /// C2H data bytes left in the slot buffer for the send path.
    pub data_len: u32,
}

impl Outcome {
    /// A completion without data.
    pub fn status(cqe: Cqe) -> (r: Outcome)
        ensures
            r == (Outcome { cqe, data_len: 0 }),
    {
        Outcome { cqe, data_len: 0 }
    }

    /// A completion after `data_len` bytes of data.
    pub fn with_data(cqe: Cqe, data_len: u32) -> (r: Outcome)
        ensures
            r == (Outcome { cqe, data_len }),
    {
        Outcome { cqe, data_len }
    }
}

/// One operation asked of a backend. Data is the head of the slot's buffer.
#[derive(Debug)]
pub enum BackendOp {
    /// Persist completed writes.
    Flush,
    /// Read `len` bytes from block `slba` on.
    Read {
        /// First block.
        slba: u64,
        /// Bytes.
        len: u32,
    },
    /// Write `len` bytes from block `slba` on.
    Write {
        /// First block.
        slba: u64,
        /// Bytes.
        len: u32,
    },
    /// Write zeroes over a range.
    WriteZeroes(LbaRange),
    /// Deallocate ranges.
    Discard(Vec<LbaRange>),
}

/// A backend operation, as what it asks for.
pub enum Op {
    /// See [`BackendOp::Flush`].
    Flush,
    /// See [`BackendOp::Read`].
    Read {
        /// First block.
        slba: u64,
        /// Bytes.
        len: u32,
    },
    /// See [`BackendOp::Write`].
    Write {
        /// First block.
        slba: u64,
        /// Bytes.
        len: u32,
    },
    /// See [`BackendOp::WriteZeroes`].
    WriteZeroes(LbaRange),
    /// See [`BackendOp::Discard`].
    Discard(Seq<LbaRange>),
}

impl View for BackendOp {
    type V = Op;

    open spec fn view(&self) -> Op {
        match self {
            BackendOp::Flush => Op::Flush,
            BackendOp::Read { slba, len } => Op::Read { slba: *slba, len: *len },
            BackendOp::Write { slba, len } => Op::Write { slba: *slba, len: *len },
            BackendOp::WriteZeroes(r) => Op::WriteZeroes(*r),
            BackendOp::Discard(v) => Op::Discard(v@),
        }
    }
}

/// What is left to do with an operation's result.
#[derive(Debug, Clone, Copy, PartialEq, Eq, Structural)]
pub enum After {
    /// Report it.
    Report,
    /// Count `len` bytes read and send them.
    SendRead {
        /// Bytes.
        len: u32,
    },
    /// Count `len` bytes written, after a flush where `fua` asks for one.
    CountWrite {
        /// Bytes.
        len: u32,
        /// Force unit access.
        fua: bool,
    },
}

/// A command under way: its id, and what is left to do.
#[derive(Debug, Clone, Copy, PartialEq, Eq, Structural)]
pub struct Pending {
    /// Command identifier.
    pub cid: u16,
    /// What is left to do.
    pub after: After,
}

/// How far a command has come.
#[derive(Debug)]
pub enum Step {
    /// It is done.
    Done(Outcome),
    /// The backend operation is to be carried out, and its result to be given
    /// to [`resume`].
    Run(BackendOp, Pending),
}

/// What a command comes to.
pub enum Plan {
    /// Failure, with this status.
    Fail(u16),
    /// Success, with this many bytes of data.
    Succeed(u32),
    /// A backend operation first.
    Run(Op, After),
}

/// Geometry of the namespace a command names.
pub struct Geometry {
    /// log2 of the block size.
    pub shift: u8,
    /// Blocks.
    pub blocks: u64,
}

/// Bytes a read or write of `rw` moves.
pub open spec fn transfer_len(rw: RwCommand, shift: u8) -> nat {
    ((rw.nlb + 1) * backend::block_size(shift)) as nat
}

/// The failure of a read or write that its command alone shows: longer than
/// the slot buffer, not the length its SGL declares, or beyond the device.
pub open spec fn length_fault(sqe: Sqe, g: Geometry, capacity: nat) -> Option<u16> {
    let rw = nvme::rw_of(sqe);
    let len = transfer_len(rw, g.shift);
    if len > capacity {
        Some(status::INVALID_FIELD | status::DNR)
    } else if sqe.dptr_length != len {
        Some(status::DATA_SGL_LEN_INVALID | status::DNR)
    } else if !backend::in_range(g.blocks, rw.slba, (rw.nlb + 1) as u64) {
        Some(status_of(BackendError::OutOfRange))
    } else {
        None
    }
}

/// Whether a Dataset Management command asks for deallocation, the only
/// attribute acted on.
pub open spec fn deallocates(sqe: Sqe) -> bool {
    sqe.cdw11 / 4 % 2 == 1
}

/// Ranges a Dataset Management command declares.
pub open spec fn dsm_count(sqe: Sqe) -> nat {
    (sqe.cdw10 % 0x100 + 1) as nat
}

/// What `sqe` comes to on namespace `g`, with `data` in the slot buffer,
/// `data_len` bytes of it received.
pub open spec fn planned(sqe: Sqe, g: Geometry, data: Seq<u8>, data_len: u32) -> Plan {
    let rw = nvme::rw_of(sqe);
    let len = transfer_len(rw, g.shift) as u32;
    if sqe.opcode == io_opcode::FLUSH {
        Plan::Run(Op::Flush, After::Report)
    } else if sqe.opcode == io_opcode::READ {
        match length_fault(sqe, g, data.len()) {
            Some(code) => Plan::Fail(code),
            None => Plan::Run(Op::Read { slba: rw.slba, len }, After::SendRead { len }),
        }
    } else if sqe.opcode == io_opcode::WRITE {
        match length_fault(sqe, g, data.len()) {
            Some(code) => Plan::Fail(code),
            None => if data_len != len {
                Plan::Fail(status::DATA_XFER_ERROR | status::DNR)
            } else {
                Plan::Run(
                    Op::Write { slba: rw.slba, len },
                    After::CountWrite { len, fua: rw.fua },
                )
            },
        }
    } else if sqe.opcode == io_opcode::WRITE_ZEROES {
        Plan::Run(
            Op::WriteZeroes(LbaRange { slba: rw.slba, nlb: (rw.nlb + 1) as u32 }),
            After::Report,
        )
    } else if sqe.opcode == io_opcode::DSM {
        if data_len < dsm_count(sqe) * 16 {
            Plan::Fail(status::DATA_SGL_LEN_INVALID | status::DNR)
        } else if !deallocates(sqe) {
            Plan::Succeed(0)
        } else {
            Plan::Run(
                Op::Discard(Seq::new(dsm_count(sqe), |i: int| nvme::dsm_range(data, i))),
                After::Report,
            )
        }
    } else {
        Plan::Fail(status::INVALID_OPCODE | status::DNR)
    }
}

/// `s` with the command's class counted.
pub open spec fn classed(s: QueueStats, opcode: u8) -> QueueStats {
    if opcode == io_opcode::FLUSH {
        QueueStats { flush_cmds: (s.flush_cmds + 1) as u64, ..s }
    } else if opcode == io_opcode::READ {
        QueueStats { read_cmds: (s.read_cmds + 1) as u64, ..s }
    } else if opcode == io_opcode::WRITE {
        QueueStats { write_cmds: (s.write_cmds + 1) as u64, ..s }
    } else {
        QueueStats { other_cmds: (s.other_cmds + 1) as u64, ..s }
    }
}

/// `s` with what `plan` adds: an error where it fails.
pub open spec fn settled(s: QueueStats, plan: Plan) -> QueueStats {
    match plan {
        Plan::Fail(_) => QueueStats { errors: (s.errors + 1) as u64, ..s },
        _ => s,
    }
}

/// What an operation's result makes of a command.
pub open spec fn continued(after: After, result: Result<(), BackendError>) -> Plan {
    match result {
        Err(e) => Plan::Fail(status_of(e)),
        Ok(_) => match after {
            After::Report => Plan::Succeed(0),
            After::SendRead { len } => Plan::Succeed(len),
            After::CountWrite { len, fua } => if fua {
                Plan::Run(Op::Flush, After::CountWrite { len, fua: false })
            } else {
                Plan::Succeed(0)
            },
        },
    }
}

/// `s` with the bytes counted that a result moved for good.
pub open spec fn moved(
    s: QueueStats,
    after: After,
    result: Result<(), BackendError>,
) -> QueueStats {
    match (after, result) {
        (After::SendRead { len }, Ok(_)) => QueueStats {
            read_bytes: (s.read_bytes + len) as u64,
            ..s
        },
        (After::CountWrite { len, fua }, Ok(_)) => if fua {
            s
        } else {
            QueueStats { write_bytes: (s.write_bytes + len) as u64, ..s }
        },
        _ => s,
    }
}

/// Whether every counter has room for what one command can add.
pub open spec fn has_room(s: QueueStats) -> bool {
    &&& s.read_cmds < u64::MAX
    &&& s.write_cmds < u64::MAX
    &&& s.flush_cmds < u64::MAX
    &&& s.other_cmds < u64::MAX
    &&& s.errors < u64::MAX
    &&& s.read_bytes + u32::MAX <= u64::MAX
    &&& s.write_bytes + u32::MAX <= u64::MAX
}

/// Whether every counter has room for what one command can add.
pub fn room_for_one(s: &QueueStats) -> (r: bool)
    ensures
        r == has_room(*s),
{
    s.read_cmds < u64::MAX && s.write_cmds < u64::MAX && s.flush_cmds < u64::MAX && s.other_cmds
        < u64::MAX && s.errors < u64::MAX && s.read_bytes <= u64::MAX - u32::MAX as u64
        && s.write_bytes <= u64::MAX - u32::MAX as u64
}

/// Whether `after` is `before` with the head moved on and the counters at
/// `stats`, as it is when a completion with `head` was made.
pub open spec fn completed_as(
    before: NvmeQueue,
    after: NvmeQueue,
    stats: QueueStats,
    head: u16,
) -> bool {
    &&& head == queue::next_sqhd(before.sqhd, before.sqsize, before.sqhd_disabled)
    &&& after == (NvmeQueue {
        sqhd: if before.sqhd_disabled {
            before.sqhd
        } else {
            head
        },
        stats,
        ..before
    })
}

/// Whether `step`, and the queue after it, are what `plan` says for command
/// `cid`.
pub open spec fn carries_out(
    step: Step,
    plan: Plan,
    cid: u16,
    before: NvmeQueue,
    stats: QueueStats,
    after: NvmeQueue,
) -> bool {
    match plan {
        Plan::Run(op, left) => {
            &&& step matches Step::Run(o, p) && o@ == op && p == (Pending { cid, after: left })
            &&& after == (NvmeQueue { stats, ..before })
        },
        Plan::Succeed(n) => {
            &&& step matches Step::Done(o) && o.data_len == n && o.cqe.result == 0 && o.cqe.sqid
                == before.qid && o.cqe.cid == cid && o.cqe.status == status::SUCCESS
                && completed_as(before, after, stats, o.cqe.sqhd)
        },
        Plan::Fail(code) => {
            &&& step matches Step::Done(o) && o.data_len == 0 && o.cqe.result == 0 && o.cqe.sqid
                == before.qid && o.cqe.cid == cid && o.cqe.status == code && completed_as(
                before,
                after,
                stats,
                o.cqe.sqhd,
            )
        },
    }
}

/// The completion of `cid` with status `code`.
fn cqe(queue: &mut NvmeQueue, cid: u16, code: u16) -> (r: Cqe)
    requires
        old(queue).wf(),
        old(queue).turns(),
    ensures
        final(queue).wf(),
        r == (Cqe { result: 0, sqhd: r.sqhd, sqid: old(queue).qid, cid, status: code }),
        completed_as(*old(queue), *final(queue), old(queue).stats, r.sqhd),
{
    let head: u16 = queue.advance_sqhd();
    Cqe::new(0, head, queue.qid, cid, code)
}

fn err_outcome(queue: &mut NvmeQueue, cid: u16, code: u16) -> (r: Step)
    requires
        old(queue).wf(),
        old(queue).turns(),
        old(queue).stats.errors < u64::MAX,
    ensures
        final(queue).wf(),
        carries_out(
            r,
            Plan::Fail(code),
            cid,
            *old(queue),
            settled(old(queue).stats, Plan::Fail(code)),
            *final(queue),
        ),
{
    stat_add(&mut queue.stats.errors, 1);
    Step::Done(Outcome::status(cqe(queue, cid, code)))
}

fn ok_outcome(queue: &mut NvmeQueue, cid: u16, data_len: u32) -> (r: Step)
    requires
        old(queue).wf(),
        old(queue).turns(),
    ensures
        final(queue).wf(),
        carries_out(
            r,
            Plan::Succeed(data_len),
            cid,
            *old(queue),
            old(queue).stats,
            *final(queue),
        ),
{
    Step::Done(Outcome::with_data(cqe(queue, cid, status::SUCCESS), data_len))
}

/// Transfer length from the LBA count, validated against MDTS (the slot
/// buffer), the SGL-declared length and the device's size.
fn checked_len(sqe: &Sqe, shift: u8, blocks: u64, capacity: usize) -> (r: Result<
    (RwCommand, u32),
    u16,
>)
    requires
        0x1_0000 * backend::block_size(shift) <= u64::MAX,
        shift < 64,
    ensures
        match r {
            Ok((rw, len)) => {
                &&& length_fault(*sqe, Geometry { shift, blocks }, capacity as nat) is None
                &&& rw == nvme::rw_of(*sqe)
                &&& len == transfer_len(rw, shift)
                &&& len <= capacity
            },
            Err(code) => length_fault(*sqe, Geometry { shift, blocks }, capacity as nat) == Some(
                code,
            ),
        },
{
    let rw = RwCommand::parse(sqe);
    let nlb: u64 = rw.nlb as u64 + 1;
    proof {
        let p = backend::block_size(shift);
        assert(nlb * p <= 0x1_0000 * p) by (nonlinear_arith)
            requires
                nlb <= 0x1_0000,
        ;
    }
    let len: u64 = bytes_in(nlb, shift);
    if len > capacity as u64 {
        return Err(status::INVALID_FIELD | status::DNR);
    }
    if sqe.dptr_length as u64 != len {
        return Err(status::DATA_SGL_LEN_INVALID | status::DNR);
    }
    match check_blocks(blocks, rw.slba, nlb) {
        Ok(()) => Ok((rw, len as u32)),
        Err(e) => Err(nvme_status(e)),
    }
}

/// Whether a namespace's blocks are of a size whose longest transfer counts in
/// 64 bits.
pub open spec fn block_fits(shift: u8) -> bool {
    shift < 64 && 0x1_0000 * backend::block_size(shift) <= u64::MAX
}

/// Where the command in `slot` comes to on its namespace.
pub open spec fn plan_in(sqe: Sqe, g: Geometry, slot: Slot) -> Plan {
    planned(sqe, g, slot.data@, slot.data_len)
}

/// Start one IO-queue command on the namespace of geometry `shift`, `blocks`.
fn start(queue: &mut NvmeQueue, shift: u8, blocks: u64, tag: u16, sqe: &Sqe) -> (r: Step)
    requires
        old(queue).wf(),
        has_room(old(queue).stats),
        tag < old(queue).slots@.len(),
        old(queue).slots@[tag as int].data_len <= old(queue).slots@[tag as int].data@.len(),
        old(queue).slots@[tag as int].data.wf(),
        old(queue).slots@[tag as int].data.runs().len() == 1,
        block_fits(shift),
    ensures
        final(queue).wf(),
        ({
            let plan = plan_in(
                *sqe,
                Geometry { shift, blocks },
                old(queue).slots@[tag as int],
            );
            carries_out(
                r,
                plan,
                sqe.cid,
                *old(queue),
                settled(classed(old(queue).stats, sqe.opcode), plan),
                *final(queue),
            )
        }),
{
    let cid: u16 = sqe.cid;
    let ghost g = Geometry { shift, blocks };
    if sqe.opcode == io_opcode::FLUSH {
        stat_add(&mut queue.stats.flush_cmds, 1);
        Step::Run(BackendOp::Flush, Pending { cid, after: After::Report })
    } else if sqe.opcode == io_opcode::READ {
        stat_add(&mut queue.stats.read_cmds, 1);
        let capacity: usize = queue.slots.slot(tag).data.len();
        match checked_len(sqe, shift, blocks, capacity) {
            Err(code) => err_outcome(queue, cid, code),
            Ok((rw, len)) => Step::Run(
                BackendOp::Read { slba: rw.slba, len },
                Pending { cid, after: After::SendRead { len } },
            ),
        }
    } else if sqe.opcode == io_opcode::WRITE {
        stat_add(&mut queue.stats.write_cmds, 1);
        let capacity: usize = queue.slots.slot(tag).data.len();
        match checked_len(sqe, shift, blocks, capacity) {
            Err(code) => err_outcome(queue, cid, code),
            Ok((rw, len)) => {
                // The transport must have delivered exactly the SGL-declared
                // bytes.
                let received: u32 = queue.slots.slot(tag).data_len;
                if received != len {
                    err_outcome(queue, cid, status::DATA_XFER_ERROR | status::DNR)
                } else {
                    Step::Run(
                        BackendOp::Write { slba: rw.slba, len },
                        Pending { cid, after: After::CountWrite { len, fua: rw.fua } },
                    )
                }
            },
        }
    } else if sqe.opcode == io_opcode::WRITE_ZEROES {
        stat_add(&mut queue.stats.other_cmds, 1);
        let rw = RwCommand::parse(sqe);
        let range = LbaRange { slba: rw.slba, nlb: rw.nlb as u32 + 1 };
        Step::Run(BackendOp::WriteZeroes(range), Pending { cid, after: After::Report })
    } else if sqe.opcode == io_opcode::DSM {
        stat_add(&mut queue.stats.other_cmds, 1);
        dsm(queue, tag, sqe)
    } else {
        stat_add(&mut queue.stats.other_cmds, 1);
        err_outcome(queue, cid, status::INVALID_OPCODE | status::DNR)
    }
}

fn dsm(queue: &mut NvmeQueue, tag: u16, sqe: &Sqe) -> (r: Step)
    requires
        sqe.opcode == io_opcode::DSM,
        old(queue).wf(),
        old(queue).stats.errors < u64::MAX,
        tag < old(queue).slots@.len(),
        old(queue).slots@[tag as int].data_len <= old(queue).slots@[tag as int].data@.len(),
        old(queue).slots@[tag as int].data.wf(),
        old(queue).slots@[tag as int].data.runs().len() == 1,
    ensures
        final(queue).wf(),
        forall|g: Geometry|
            ({
                let plan = #[trigger] plan_in(*sqe, g, old(queue).slots@[tag as int]);
                carries_out(
                    r,
                    plan,
                    sqe.cid,
                    *old(queue),
                    settled(old(queue).stats, plan),
                    *final(queue),
                )
            }),
{
    let cid: u16 = sqe.cid;
    // Deallocate is the only attribute we act on; others are accepted no-ops
    // per spec.
    let deallocate: bool = sqe.cdw11 / 4 % 2 == 1;
    let nr: usize = (sqe.cdw10 % 0x100) as usize + 1;
    let needed: usize = nr * 16;
    let received: u32 = queue.slots.slot(tag).data_len;
    if (received as usize) < needed {
        return err_outcome(queue, cid, status::DATA_SGL_LEN_INVALID | status::DNR);
    }
    if !deallocate {
        return ok_outcome(queue, cid, 0);
    }
    let ranges = dsm_ranges(queue.slots.slot(tag).data.as_slice(), nr);
    proof {
        let slot = queue.slots@[tag as int];
        assert(ranges@ =~= Seq::new(dsm_count(*sqe), |i: int| nvme::dsm_range(slot.data@, i)));
    }
    Step::Run(BackendOp::Discard(ranges), Pending { cid, after: After::Report })
}

/// Execute one IO-queue command (slot task context), up to its first backend
/// operation or its outcome. `subsys` is what the queue's Connect has bound.
pub fn execute<B: Backend>(
    queue: &mut NvmeQueue,
    subsys: Option<&Subsystem<B>>,
    cache: &mut NsCache<B>,
    tag: u16,
    sqe: &Sqe,
) -> (r: Step)
    requires
        old(queue).wf(),
        has_room(old(queue).stats),
        tag < old(queue).slots@.len(),
        old(queue).slots@[tag as int].data_len <= old(queue).slots@[tag as int].data@.len(),
        old(queue).slots@[tag as int].data.wf(),
        old(queue).slots@[tag as int].data.runs().len() == 1,
        subsys matches Some(s) ==> {
            &&& s.wf()
            &&& cached_table(*old(cache), *s).wf()
            &&& forall|id: u32|
                cached_table(*old(cache), *s)@.contains_key(id) ==> block_fits(
                    (#[trigger] cached_table(*old(cache), *s)@[id]).backend.shift(),
                )
        },
    ensures
        final(queue).wf(),
        match subsys {
            None => {
                // No commands before this queue's Connect has bound a
                // subsystem.
                &&& *final(cache) == *old(cache)
                &&& fails(r, status::CMD_SEQ_ERROR | status::DNR, *sqe, *old(queue), *final(queue))
            },
            Some(s) => {
                let table = cached_table(*old(cache), *s)@;
                &&& subsystem::current(*final(cache), *s)
                &&& final(cache).map->0@ == table
                &&& if !table.contains_key(sqe.nsid) {
                    fails(r, status::INVALID_NS | status::DNR, *sqe, *old(queue), *final(queue))
                } else {
                    let ns = table[sqe.nsid];
                    let plan = plan_in(
                        *sqe,
                        Geometry { shift: ns.backend.shift(), blocks: ns.backend.blocks() },
                        old(queue).slots@[tag as int],
                    );
                    carries_out(
                        r,
                        plan,
                        sqe.cid,
                        *old(queue),
                        settled(classed(old(queue).stats, sqe.opcode), plan),
                        *final(queue),
                    )
                }
            },
        },
{
    let cid: u16 = sqe.cid;
    match subsys {
        None => err_outcome(queue, cid, status::CMD_SEQ_ERROR | status::DNR),
        Some(s) => {
            let table = cache.get(s);
            match table.get(sqe.nsid) {
                None => err_outcome(queue, cid, status::INVALID_NS | status::DNR),
                Some(ns) => {
                    let shift: u8 = ns.backend.block_shift();
                    let blocks: u64 = ns.backend.nr_blocks();
                    start(queue, shift, blocks, tag, sqe)
                },
            }
        },
    }
}

/// The table a cache serves commands on `subsys` from: its own while that is
/// current, a fresh one otherwise.
pub open spec fn cached_table<B>(cache: NsCache<B>, subsys: Subsystem<B>) -> crate::nstable::NsMap<
    B,
> {
    if subsystem::current(cache, subsys) {
        cache.map->0
    } else {
        subsys.namespaces
    }
}

/// Whether a command failed with `code` before its class was looked at.
pub open spec fn fails(
    step: Step,
    code: u16,
    sqe: Sqe,
    before: NvmeQueue,
    after: NvmeQueue,
) -> bool {
    carries_out(
        step,
        Plan::Fail(code),
        sqe.cid,
        before,
        settled(before.stats, Plan::Fail(code)),
        after,
    )
}

/// Go on with a command whose backend operation gave `result`.
pub fn resume(queue: &mut NvmeQueue, pending: Pending, result: Result<(), BackendError>) -> (r:
    Step)
    requires
        old(queue).wf(),
        old(queue).turns(),
        has_room(old(queue).stats),
    ensures
        final(queue).wf(),
        carries_out(
            r,
            continued(pending.after, result),
            pending.cid,
            *old(queue),
            settled(
                moved(old(queue).stats, pending.after, result),
                continued(pending.after, result),
            ),
            *final(queue),
        ),
{
    let cid: u16 = pending.cid;
    match result {
        Err(e) => err_outcome(queue, cid, nvme_status(e)),
        Ok(()) => match pending.after {
            After::Report => ok_outcome(queue, cid, 0),
            After::SendRead { len } => {
                stat_add(&mut queue.stats.read_bytes, len as u64);
                ok_outcome(queue, cid, len)
            },
            After::CountWrite { len, fua } => {
                // FUA on a memory/file backend: flush after write.
                if fua {
                    Step::Run(
                        BackendOp::Flush,
                        Pending { cid, after: After::CountWrite { len, fua: false } },
                    )
                } else {
                    stat_add(&mut queue.stats.write_bytes, len as u64);
                    ok_outcome(queue, cid, 0)
                }
            },
        },
    }
}

/// A command takes at most two backend operations: the flush of a
/// force-unit-access write is its last.
pub proof fn lemma_two_operations(after: After, first: Result<(), BackendError>, second: Result<
    (),
    BackendError,
>)
    ensures
        continued(after, first) matches Plan::Run(op, next) ==> op == Op::Flush && continued(
            next,
            second,
        ) !is Run,
{
}

// ---------------------------------------------------------------------------
// What commands ask for
// ---------------------------------------------------------------------------

/// Whether a Read, Write or Write Zeroes names block `b`: from the block in
/// dwords 10 and 11 on, one more than the low half of dword 12 counts.
pub open spec fn names_block(sqe: Sqe, b: int) -> bool {
    let first = sqe.cdw10 + sqe.cdw11 * 0x1_0000_0000;
    first <= b <= first + sqe.cdw12 % 0x1_0000
}

/// Whether a backend operation reads or changes block `b`, of log2 size `shift`.
pub open spec fn touches(op: Op, shift: u8, b: int) -> bool {
    match op {
        Op::Flush => false,
        Op::Read { slba, len } => slba <= b && (b - slba) * backend::block_size(shift) < len,
        Op::Write { slba, len } => slba <= b && (b - slba) * backend::block_size(shift) < len,
        Op::WriteZeroes(r) => r.slba <= b < r.slba + r.nlb,
        Op::Discard(v) => exists|i: int|
            0 <= i < v.len() && (#[trigger] v[i]).slba <= b < v[i].slba + v[i].nlb,
    }
}

/// Whether a Dataset Management payload has block `b` in one of its first `n`
/// ranges: 16 bytes each, the count in bytes 4 to 7 and the first block in bytes
/// 8 to 15, least significant first.
pub open spec fn lists_block(data: Seq<u8>, n: int, b: int) -> bool {
    exists|i: int|
        0 <= i < n && {
            let r = #[trigger] data.subrange(16 * i, 16 * i + 16);
            let first = bytes::le_value(r.subrange(8, 16));
            first <= b < first + bytes::le_value(r.subrange(4, 8))
        }
}

/// Bytes of the blocks a Read or Write names.
pub open spec fn named_bytes(sqe: Sqe, shift: u8) -> nat {
    ((sqe.cdw12 % 0x1_0000 + 1) * backend::block_size(shift)) as nat
}

/// The status codes, with the bit that says that a retry is of no use.
proof fn lemma_codes()
    ensures
        status::INVALID_FIELD | status::DNR == 0x4002,
        status::DATA_SGL_LEN_INVALID | status::DNR == 0x400f,
        status::LBA_RANGE | status::DNR == 0x4080,
        status::CAP_EXCEEDED | status::DNR == 0x4081,
        status::INVALID_OPCODE | status::DNR == 0x4001,
        status::INTERNAL | status::DNR == 0x4006,
        status::DATA_XFER_ERROR | status::DNR == 0x4004,
        status::CMD_SEQ_ERROR | status::DNR == 0x400c,
        status::INVALID_NS | status::DNR == 0x400b,
{
    assert(0x2u16 | 0x4000u16 == 0x4002u16 && 0xfu16 | 0x4000u16 == 0x400fu16 && 0x80u16 | 0x4000u16
        == 0x4080u16 && 0x81u16 | 0x4000u16 == 0x4081u16 && 0x1u16 | 0x4000u16 == 0x4001u16
        && 0x6u16 | 0x4000u16 == 0x4006u16 && 0x4u16 | 0x4000u16 == 0x4004u16 && 0xcu16 | 0x4000u16
        == 0x400cu16 && 0xbu16 | 0x4000u16 == 0x400bu16) by (bit_vector);
}

/// What is asked of the backend is what the command says: a Read is a read, a
/// Write a write, a Write Zeroes a write of zeroes, each of exactly the blocks
/// the command names, however they are counted; a Dataset Management deallocates
/// exactly the blocks its ranges list.
pub proof fn lemma_command_blocks(sqe: Sqe, g: Geometry, data: Seq<u8>, data_len: u32, b: int)
    requires
        data_len <= data.len(),
    ensures
        planned(sqe, g, data, data_len) matches Plan::Run(op, _) ==> {
            &&& op is Flush <==> sqe.opcode == 0x00
            &&& op is Write <==> sqe.opcode == 0x01
            &&& op is Read <==> sqe.opcode == 0x02
            &&& op is WriteZeroes <==> sqe.opcode == 0x08
            &&& op is Discard <==> sqe.opcode == 0x09
            &&& sqe.opcode == 0x01 || sqe.opcode == 0x02 || sqe.opcode == 0x08 ==> (touches(
                op,
                g.shift,
                b,
            ) <==> names_block(sqe, b))
            &&& sqe.opcode == 0x09 ==> (touches(op, g.shift, b) <==> lists_block(
                data,
                sqe.cdw10 % 0x100 + 1,
                b,
            ))
        },
{
    let rw = nvme::rw_of(sqe);
    let p = backend::block_size(g.shift) as int;
    let n = sqe.cdw12 % 0x1_0000;
    vstd::arithmetic::power2::lemma_pow2_pos(g.shift as nat);
    if sqe.opcode == 0x01 || sqe.opcode == 0x02 {
        let d = b - rw.slba;
        assert(d * p < (n + 1) * p <==> d < n + 1) by (nonlinear_arith)
            requires
                p > 0,
        ;
    }
    if sqe.opcode == 0x09 {
        let count = dsm_count(sqe);
        if let Plan::Run(Op::Discard(v), _) = planned(sqe, g, data, data_len) {
            assert(v.len() == count);
            assert forall|i: int| 0 <= i < count implies #[trigger] v[i] == nvme::dsm_range(
                data,
                i,
            ) by {}
            assert forall|i: int| 0 <= i < count implies {
                let r = #[trigger] data.subrange(16 * i, 16 * i + 16);
                &&& bytes::le_value(r.subrange(8, 16)) == v[i].slba
                &&& bytes::le_value(r.subrange(4, 8)) == v[i].nlb
            } by {
                let r = data.subrange(16 * i, 16 * i + 16);
                assert(r.subrange(8, 16) =~= data.subrange(i * 16 + 8, i * 16 + 16));
                assert(r.subrange(4, 8) =~= data.subrange(i * 16 + 4, i * 16 + 8));
                bytes::lemma_le_value(r.subrange(8, 16));
                bytes::lemma_le_value(r.subrange(4, 8));
                bytes::lemma_pow256();
            }
            if touches(Op::Discard(v), g.shift, b) {
                let i = choose|i: int|
                    0 <= i < v.len() && (#[trigger] v[i]).slba <= b < v[i].slba + v[i].nlb;
                let r = data.subrange(16 * i, 16 * i + 16);
                assert(bytes::le_value(r.subrange(8, 16)) == v[i].slba);
            }
            if lists_block(data, count as int, b) {
                let i = choose|i: int|
                    0 <= i < count && {
                        let r = #[trigger] data.subrange(16 * i, 16 * i + 16);
                        let first = bytes::le_value(r.subrange(8, 16));
                        first <= b < first + bytes::le_value(r.subrange(4, 8))
                    };
                assert(v[i].slba <= b < v[i].slba + v[i].nlb);
            }
        }
    }
}

/// A Write Zeroes has the blocks zeroed that a Write of the same dwords would
/// write: from the same block on, as many bytes as that Write moves, and never
/// none.
pub proof fn lemma_zeroes_what_a_write_covers(
    zeroes: Sqe,
    write: Sqe,
    g: Geometry,
    data: Seq<u8>,
    data_len: u32,
)
    requires
        zeroes.opcode == 0x08,
        write.opcode == 0x01,
        zeroes.cdw10 == write.cdw10,
        zeroes.cdw11 == write.cdw11,
        zeroes.cdw12 == write.cdw12,
    ensures
        planned(zeroes, g, data, data_len) matches Plan::Run(Op::WriteZeroes(r), After::Report)
            && r.nlb > 0 && r.nlb * backend::block_size(g.shift) == named_bytes(write, g.shift)
            && (planned(write, g, data, data_len) matches Plan::Run(op, _) ==> (op matches Op::Write {
            slba,
            len,
        } && slba == r.slba && len == r.nlb * backend::block_size(g.shift))),
{
}

/// A Read or Write is carried out exactly where its bytes fit the buffer, are as
/// many as its data pointer declares, lie on the device and, for a Write, were
/// all received; each refusal has its own status, and none of them may be
/// retried. Flush and Write Zeroes are always passed on, a Dataset Management
/// where all its ranges were received, and nothing else is.
pub proof fn lemma_command_accepted(sqe: Sqe, g: Geometry, data: Seq<u8>, data_len: u32)
    ensures
        ({
            let plan = planned(sqe, g, data, data_len);
            let len = named_bytes(sqe, g.shift);
            let last = sqe.cdw10 + sqe.cdw11 * 0x1_0000_0000 + sqe.cdw12 % 0x1_0000;
            let fits = len <= data.len();
            let declared = len == sqe.dptr_length;
            let there = last < g.blocks;
            &&& sqe.opcode == 0x00 || sqe.opcode == 0x08 ==> plan is Run
            &&& sqe.opcode == 0x01 || sqe.opcode == 0x02 ==> {
                &&& !fits <==> plan == Plan::Fail(0x4002)
                &&& fits && !declared <==> plan == Plan::Fail(0x400f)
                &&& fits && declared && !there <==> plan == Plan::Fail(0x4080)
            }
            &&& sqe.opcode == 0x02 ==> (fits && declared && there <==> plan is Run)
            &&& sqe.opcode == 0x01 ==> {
                &&& fits && declared && there && data_len != len <==> plan == Plan::Fail(0x4004)
                &&& fits && declared && there && data_len == len <==> plan is Run
            }
            &&& sqe.opcode == 0x09 ==> {
                let received = data_len >= 16 * (sqe.cdw10 % 0x100 + 1);
                &&& !received <==> plan == Plan::Fail(0x400f)
                &&& received && sqe.cdw11 / 4 % 2 == 1 <==> plan is Run
                &&& received && sqe.cdw11 / 4 % 2 == 0 <==> plan == Plan::Succeed(0)
            }
            &&& sqe.opcode != 0x00 && sqe.opcode != 0x01 && sqe.opcode != 0x02 && sqe.opcode != 0x08
                && sqe.opcode != 0x09 ==> plan == Plan::Fail(0x4001)
        }),
{
    lemma_codes();
}

/// What a backend's failure is reported as.
pub proof fn lemma_backend_failures(after: After, e: BackendError)
    ensures
        continued(after, Err(e)) == Plan::Fail(
            match e {
                BackendError::OutOfRange => 0x4080u16,
                BackendError::NoSpace => 0x4081u16,
                BackendError::Unsupported => 0x4001u16,
                BackendError::Io(_) => 0x4006u16,
            },
        ),
{
    lemma_codes();
}

/// A command succeeds only once everything it asks for was done: a Read then
/// sends the bytes it names and no other command sends any, and a Write with
/// force unit access (bit 30 of dword 12) is first followed by a flush.
pub proof fn lemma_command_completes(sqe: Sqe, g: Geometry, data: Seq<u8>, data_len: u32)
    ensures
        planned(sqe, g, data, data_len) matches Plan::Run(op, after) ==> {
            let then = continued(after, Ok(()));
            let forced = sqe.opcode == 0x01 && sqe.cdw12 / 0x4000_0000 % 2 == 1;
            &&& sqe.opcode == 0x02 ==> then == Plan::Succeed(named_bytes(sqe, g.shift) as u32)
            &&& sqe.opcode != 0x02 && !forced ==> then == Plan::Succeed(0)
            &&& forced ==> (then matches Plan::Run(Op::Flush, last) && continued(last, Ok(()))
                == Plan::Succeed(0))
        },
{
}

/// The blocks and bytes are counted once: after a Read of `n` bytes that
/// succeeded one more Read and `n` more bytes read are counted, after a Write one
/// more Write and `n` more bytes written, and whatever fails is one more error
/// and moves no bytes.
pub proof fn lemma_command_counted(
    s: QueueStats,
    sqe: Sqe,
    g: Geometry,
    data: Seq<u8>,
    data_len: u32,
    result: Result<(), BackendError>,
)
    requires
        has_room(s),
    ensures
        ({
            let plan = planned(sqe, g, data, data_len);
            let s1 = settled(classed(s, sqe.opcode), plan);
            let n = named_bytes(sqe, g.shift);
            let one = |yes: bool|
                if yes {
                    1nat
                } else {
                    0nat
                };
            &&& s1.qid == s.qid && s1.cntlid == s.cntlid
            &&& s1.read_cmds == s.read_cmds + one(sqe.opcode == 0x02)
            &&& s1.write_cmds == s.write_cmds + one(sqe.opcode == 0x01)
            &&& s1.flush_cmds == s.flush_cmds + one(sqe.opcode == 0x00)
            &&& s1.other_cmds == s.other_cmds + one(
                sqe.opcode != 0x00 && sqe.opcode != 0x01 && sqe.opcode != 0x02,
            )
            &&& s1.errors == s.errors + one(plan is Fail)
            &&& s1.read_bytes == s.read_bytes && s1.write_bytes == s.write_bytes
            &&& plan matches Plan::Run(op, after) ==> {
                let then = continued(after, result);
                let s2 = settled(moved(s1, after, result), then);
                let ok = then is Succeed;
                &&& s2.read_bytes == s.read_bytes + if ok && sqe.opcode == 0x02 {
                    n
                } else {
                    0
                }
                &&& s2.write_bytes == s.write_bytes + if ok && sqe.opcode == 0x01 {
                    n
                } else {
                    0
                }
                &&& s2.errors == s.errors + one(result is Err)
                &&& s2.read_cmds == s1.read_cmds && s2.write_cmds == s1.write_cmds
                &&& s2.flush_cmds == s1.flush_cmds && s2.other_cmds == s1.other_cmds
                &&& s2.qid == s.qid && s2.cntlid == s.cntlid
                &&& then matches Plan::Run(_, last) ==> {
                    let s3 = settled(moved(s2, last, Ok(())), continued(last, Ok(())));
                    &&& s3.write_bytes == s.write_bytes + n
                    &&& s3.read_bytes == s.read_bytes
                    &&& s3.errors == s.errors
                }
            }
        }),
{
}

} // verus!
