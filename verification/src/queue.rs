//! NVMe queue context: the slot array plus SQ-head flow control and per-queue
//! lifetime stats. The send list is deliberately absent — its work type
//! belongs to the transport.

use vstd::prelude::*;

use crate::buf;
use crate::slotq;
use crate::slotq::SlotArray;

verus! {

/// Per-queue lifetime IO counters. All writers run on the owning queue
/// thread; GET_STATS snapshots them *on that thread* via the mailbox.
#[derive(Debug, Clone, Copy, PartialEq, Eq, Structural)]
pub struct QueueStats {
    /// Queue id (immutable; reporting identity together with `cntlid`).
    pub qid: u16,
    /// Owning controller, set when Connect executes (0 until then).
    pub cntlid: u16,
    /// NVM Read commands dispatched.
    pub read_cmds: u64,
    /// NVM Write commands dispatched.
    pub write_cmds: u64,
    /// NVM Flush commands dispatched.
    pub flush_cmds: u64,
    /// Admin, fabrics, and non-Read/Write/Flush IO commands.
    pub other_cmds: u64,
    /// Payload bytes of successful backend reads.
    pub read_bytes: u64,
    /// Payload bytes of successful backend writes.
    pub write_bytes: u64,
    /// IO-path commands completed with non-success status (validation and
    /// backend failures). Admin/fabrics failures are not counted, and a
    /// pre-dispatch rejection (unknown namespace, bad opcode) bumps this
    /// without a cmd-class counter — so the class counters do not necessarily
    /// sum to commands received.
    pub errors: u64,
}

/// Plain copy of [`QueueStats`]; doubles as the fold accumulator for
/// torn-down queues ([`QueueStatsSnapshot::absorb`]).
#[derive(Debug, Clone, Copy, PartialEq, Eq, Structural)]
pub struct QueueStatsSnapshot {
    /// Queue id.
    pub qid: u16,
    /// Owning controller.
    pub cntlid: u16,
    /// Read commands.
    pub read_cmds: u64,
    /// Write commands.
    pub write_cmds: u64,
    /// Flush commands.
    pub flush_cmds: u64,
    /// Other commands.
    pub other_cmds: u64,
    /// Bytes read.
    pub read_bytes: u64,
    /// Bytes written.
    pub write_bytes: u64,
    /// Failed commands.
    pub errors: u64,
}

/// The snapshot of nothing.
pub open spec fn no_stats() -> QueueStatsSnapshot {
    QueueStatsSnapshot {
        qid: 0,
        cntlid: 0,
        read_cmds: 0,
        write_cmds: 0,
        flush_cmds: 0,
        other_cmds: 0,
        read_bytes: 0,
        write_bytes: 0,
        errors: 0,
    }
}

impl Default for QueueStatsSnapshot {
    fn default() -> (r: Self)
        ensures
            r == no_stats(),
    {
        QueueStatsSnapshot {
            qid: 0,
            cntlid: 0,
            read_cmds: 0,
            write_cmds: 0,
            flush_cmds: 0,
            other_cmds: 0,
            read_bytes: 0,
            write_bytes: 0,
            errors: 0,
        }
    }
}

/// Counter increment used on the IO path.
pub fn stat_add(cell: &mut u64, n: u64)
    requires
        *old(cell) + n <= u64::MAX,
    ensures
        *final(cell) == *old(cell) + n,
{
    *cell = *cell + n;
}

/// The snapshot of `s`.
pub open spec fn snapshot_of(s: QueueStats) -> QueueStatsSnapshot {
    QueueStatsSnapshot {
        qid: s.qid,
        cntlid: s.cntlid,
        read_cmds: s.read_cmds,
        write_cmds: s.write_cmds,
        flush_cmds: s.flush_cmds,
        other_cmds: s.other_cmds,
        read_bytes: s.read_bytes,
        write_bytes: s.write_bytes,
        errors: s.errors,
    }
}

impl QueueStats {
    /// Fresh zeroed counters for queue `qid`.
    pub fn new(qid: u16) -> (r: QueueStats)
        ensures
            snapshot_of(r) == (QueueStatsSnapshot { qid, ..no_stats() }),
    {
        QueueStats {
            qid,
            cntlid: 0,
            read_cmds: 0,
            write_cmds: 0,
            flush_cmds: 0,
            other_cmds: 0,
            read_bytes: 0,
            write_bytes: 0,
            errors: 0,
        }
    }

    /// Copy out the current values (owning thread only).
    pub fn snapshot(&self) -> (r: QueueStatsSnapshot)
        ensures
            r == snapshot_of(*self),
    {
        QueueStatsSnapshot {
            qid: self.qid,
            cntlid: self.cntlid,
            read_cmds: self.read_cmds,
            write_cmds: self.write_cmds,
            flush_cmds: self.flush_cmds,
            other_cmds: self.other_cmds,
            read_bytes: self.read_bytes,
            write_bytes: self.write_bytes,
            errors: self.errors,
        }
    }

    /// Zero the counters (owning thread only). Identity (`qid`, `cntlid`) is
    /// preserved — the queue is still the same queue.
    pub fn reset(&mut self)
        ensures
            snapshot_of(*final(self)) == (QueueStatsSnapshot {
                qid: old(self).qid,
                cntlid: old(self).cntlid,
                ..no_stats()
            }),
    {
        self.read_cmds = 0;
        self.write_cmds = 0;
        self.flush_cmds = 0;
        self.other_cmds = 0;
        self.read_bytes = 0;
        self.write_bytes = 0;
        self.errors = 0;
    }
}

impl QueueStatsSnapshot {
    /// Whether the sums of both fit their counters.
    pub open spec fn fits(&self, other: &QueueStatsSnapshot) -> bool {
        &&& self.read_cmds + other.read_cmds <= u64::MAX
        &&& self.write_cmds + other.write_cmds <= u64::MAX
        &&& self.flush_cmds + other.flush_cmds <= u64::MAX
        &&& self.other_cmds + other.other_cmds <= u64::MAX
        &&& self.read_bytes + other.read_bytes <= u64::MAX
        &&& self.write_bytes + other.write_bytes <= u64::MAX
        &&& self.errors + other.errors <= u64::MAX
    }

    /// Whether the sums of both fit their counters.
    pub fn has_room(&self, other: &QueueStatsSnapshot) -> (r: bool)
        ensures
            r == self.fits(other),
    {
        self.read_cmds <= u64::MAX - other.read_cmds && self.write_cmds <= u64::MAX
            - other.write_cmds && self.flush_cmds <= u64::MAX - other.flush_cmds && self.other_cmds
            <= u64::MAX - other.other_cmds && self.read_bytes <= u64::MAX - other.read_bytes
            && self.write_bytes <= u64::MAX - other.write_bytes && self.errors <= u64::MAX
            - other.errors
    }

    /// Accumulate `other`'s counters; identity fields stay untouched (the
    /// accumulator represents "all retired queues").
    pub fn absorb(&mut self, other: &QueueStatsSnapshot)
        requires
            old(self).fits(other),
        ensures
            *final(self) == (QueueStatsSnapshot {
                qid: old(self).qid,
                cntlid: old(self).cntlid,
                read_cmds: (old(self).read_cmds + other.read_cmds) as u64,
                write_cmds: (old(self).write_cmds + other.write_cmds) as u64,
                flush_cmds: (old(self).flush_cmds + other.flush_cmds) as u64,
                other_cmds: (old(self).other_cmds + other.other_cmds) as u64,
                read_bytes: (old(self).read_bytes + other.read_bytes) as u64,
                write_bytes: (old(self).write_bytes + other.write_bytes) as u64,
                errors: (old(self).errors + other.errors) as u64,
            }),
    {
        stat_add(&mut self.read_cmds, other.read_cmds);
        stat_add(&mut self.write_cmds, other.write_cmds);
        stat_add(&mut self.flush_cmds, other.flush_cmds);
        stat_add(&mut self.other_cmds, other.other_cmds);
        stat_add(&mut self.read_bytes, other.read_bytes);
        stat_add(&mut self.write_bytes, other.write_bytes);
        stat_add(&mut self.errors, other.errors);
    }
}

/// Transport-neutral NVMe queue context: the slot array plus SQ-head flow
/// control and stats.
#[derive(Debug)]
pub struct NvmeQueue {
    /// The command slots.
    pub slots: SlotArray,
    /// Queue depth in entries; slot count.
    pub sqsize: u16,
    /// Queue id (0 = admin).
    pub qid: u16,
    /// The last SQ head reported.
    pub sqhd: u16,
    /// Host requested SQ flow control disabled (Connect cattr bit).
    pub sqhd_disabled: bool,
    /// Lifetime IO counters.
    pub stats: QueueStats,
}

/// The SQ head reported next after `sqhd`, in a queue of `sqsize` entries.
pub open spec fn next_sqhd(sqhd: u16, sqsize: u16, disabled: bool) -> u16 {
    if disabled {
        0
    } else {
        ((sqhd + 1) % sqsize as int) as u16
    }
}

impl NvmeQueue {
    /// The head lies in the queue, and there is a slot per entry.
    pub open spec fn wf(&self) -> bool {
        &&& self.slots.wf()
        &&& self.slots@.len() == self.sqsize
        &&& self.sqhd < self.sqsize || self.sqhd == 0
    }

    /// Whether a completion can report a head: there is an entry for it to lie
    /// at, or flow control is off.
    pub open spec fn turns(&self) -> bool {
        self.sqhd_disabled || 0 < self.sqsize
    }

    /// Allocate a queue: `sqsize` slots each with a `slot_buf_size` data
    /// buffer.
    pub fn new(qid: u16, sqsize: u16, slot_buf_size: usize, sqhd_disabled: bool) -> (r: NvmeQueue)
        requires
            buf::granules(slot_buf_size as nat) <= isize::MAX,
        ensures
            r.wf(),
            r.sqsize == sqsize,
            r.qid == qid,
            r.sqhd == 0,
            r.sqhd_disabled == sqhd_disabled,
            snapshot_of(r.stats) == (QueueStatsSnapshot { qid, ..no_stats() }),
            r.slots.free_list() == Seq::new(sqsize as nat, |t: int| t as u16),
            forall|t: int|
                0 <= t < sqsize ==> slotq::fresh(#[trigger] r.slots@[t], slot_buf_size),
    {
        NvmeQueue {
            slots: SlotArray::new(sqsize, slot_buf_size),
            sqsize,
            qid,
            sqhd: 0,
            sqhd_disabled,
            stats: QueueStats::new(qid),
        }
    }

    /// Current sqhd, advancing it (call once per completion). 16-bit circular
    /// per the negotiated queue size.
    pub fn advance_sqhd(&mut self) -> (r: u16)
        requires
            old(self).wf(),
            old(self).turns(),
        ensures
            final(self).wf(),
            r == next_sqhd(old(self).sqhd, old(self).sqsize, old(self).sqhd_disabled),
            *final(self) == (NvmeQueue {
                sqhd: if old(self).sqhd_disabled {
                    old(self).sqhd
                } else {
                    r
                },
                ..*old(self)
            }),
    {
        if self.sqhd_disabled {
            return 0;
        }
        let next: u16 = (self.sqhd + 1) % self.sqsize;
        self.sqhd = next;
        next
    }
}

/// The SQ head after `k` completions from `sqhd` on.
pub open spec fn sqhd_after(sqhd: u16, sqsize: u16, k: nat) -> u16
    decreases k,
{
    if k == 0 {
        sqhd
    } else {
        next_sqhd(sqhd_after(sqhd, sqsize, (k - 1) as nat), sqsize, false)
    }
}

/// The head goes round the queue: after `k` completions it is `k` further on,
/// modulo the queue's size.
pub proof fn lemma_sqhd_wraps(sqhd: u16, sqsize: u16, k: nat)
    requires
        sqhd < sqsize,
    ensures
        sqhd_after(sqhd, sqsize, k) as int == (sqhd + k) % sqsize as int,
    decreases k,
{
    let n = sqsize as int;
    if k == 0 {
        vstd::arithmetic::div_mod::lemma_small_mod(sqhd as nat, sqsize as nat);
    } else {
        lemma_sqhd_wraps(sqhd, sqsize, (k - 1) as nat);
        let a = sqhd + k - 1;
        vstd::arithmetic::div_mod::lemma_mod_bound(a, n);
        vstd::arithmetic::div_mod::lemma_mod_bound(a % n + 1, n);
        vstd::arithmetic::div_mod::lemma_add_mod_noop_right(1, a, n);
    }
}

/// What a completion reports: the entry behind the last one, the first again
/// behind the last of the queue, and nothing where the host wants no heads.
pub proof fn lemma_sqhd_reported(sqhd: u16, sqsize: u16)
    requires
        sqhd < sqsize,
    ensures
        sqhd + 1 < sqsize ==> next_sqhd(sqhd, sqsize, false) == sqhd + 1,
        sqhd + 1 == sqsize ==> next_sqhd(sqhd, sqsize, false) == 0,
        next_sqhd(sqhd, sqsize, true) == 0,
{
    if sqhd + 1 < sqsize {
        vstd::arithmetic::div_mod::lemma_small_mod((sqhd + 1) as nat, sqsize as nat);
    } else {
        vstd::arithmetic::div_mod::lemma_mod_self_0(sqsize as int);
    }
}

/// A snapshot has each number from where it is counted.
pub proof fn lemma_snapshot(s: QueueStats)
    ensures
        ({
            let p = snapshot_of(s);
            &&& p.qid == s.qid && p.cntlid == s.cntlid
            &&& p.read_cmds == s.read_cmds && p.read_bytes == s.read_bytes
            &&& p.write_cmds == s.write_cmds && p.write_bytes == s.write_bytes
            &&& p.flush_cmds == s.flush_cmds && p.other_cmds == s.other_cmds
            &&& p.errors == s.errors
        }),
{
}

} // verus!
