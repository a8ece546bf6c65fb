//! What a queue thread counts: its live queues, the queues that are gone, and
//! the report of both.

use vstd::prelude::*;

use crate::backend;
use crate::backend::BackendError;
use crate::io;
use crate::nvme::Sqe;
use crate::queue;
use crate::queue::{QueueStats, QueueStatsSnapshot};
use crate::rdma::stats;
use crate::rdma::stats::RdmaWrStats;

verus! {

/// One queue a thread counts for.
#[derive(Debug, Clone, Copy)]
pub struct QueueEntry {
    /// Its counters.
    pub stats: QueueStats,
    /// Transport-specific counters, if any.
    pub wr: Option<RdmaWrStats>,
    /// Its connection.
    pub conn: u64,
    /// Whether its connection still holds it.
    pub held: bool,
}

/// A queue thread's counters: its queues, and the sums of those that are gone.
#[derive(Debug)]
pub struct ThreadStats {
    /// The queues, in the order they came.
    pub queues: Vec<QueueEntry>,
    /// All retired queues.
    pub retired: QueueStatsSnapshot,
}

/// The sum of two snapshots; identity is the first's.
pub open spec fn absorbed(a: QueueStatsSnapshot, b: QueueStatsSnapshot) -> QueueStatsSnapshot {
    QueueStatsSnapshot {
        qid: a.qid,
        cntlid: a.cntlid,
        read_cmds: (a.read_cmds + b.read_cmds) as u64,
        write_cmds: (a.write_cmds + b.write_cmds) as u64,
        flush_cmds: (a.flush_cmds + b.flush_cmds) as u64,
        other_cmds: (a.other_cmds + b.other_cmds) as u64,
        read_bytes: (a.read_bytes + b.read_bytes) as u64,
        write_bytes: (a.write_bytes + b.write_bytes) as u64,
        errors: (a.errors + b.errors) as u64,
    }
}

/// The first `k` queues that are still held.
pub open spec fn held(v: Seq<QueueEntry>, k: nat) -> Seq<QueueEntry>
    decreases k,
{
    if k == 0 {
        seq![]
    } else if v[k - 1].held {
        held(v, (k - 1) as nat).push(v[k - 1])
    } else {
        held(v, (k - 1) as nat)
    }
}

/// `retired` with those of the first `k` queues that are gone.
pub open spec fn retired(
    v: Seq<QueueEntry>,
    start: QueueStatsSnapshot,
    k: nat,
) -> QueueStatsSnapshot
    decreases k,
{
    if k == 0 {
        start
    } else if v[k - 1].held {
        retired(v, start, (k - 1) as nat)
    } else {
        absorbed(retired(v, start, (k - 1) as nat), queue::snapshot_of(v[k - 1].stats))
    }
}

/// Whether queue `k` can be added to those that are gone before it.
pub open spec fn fits_at(v: Seq<QueueEntry>, start: QueueStatsSnapshot, k: int) -> bool {
    !v[k].held ==> retired(v, start, k as nat).fits(&queue::snapshot_of(v[k].stats))
}

/// Whether the sums of the queues that are gone fit their counters.
pub open spec fn sums_fit(v: Seq<QueueEntry>, start: QueueStatsSnapshot) -> bool {
    forall|k: int| 0 <= k < v.len() ==> #[trigger] fits_at(v, start, k)
}

/// Whether `b` is queue `a` with nothing counted: it is still the same queue,
/// and what its transport has in flight still is.
pub open spec fn cleared(a: QueueEntry, b: QueueEntry) -> bool {
    &&& b.held == a.held
    &&& b.conn == a.conn
    &&& queue::snapshot_of(b.stats) == (QueueStatsSnapshot {
        qid: a.stats.qid,
        cntlid: a.stats.cntlid,
        ..queue::no_stats()
    })
    &&& match (a.wr, b.wr) {
        (Some(w), Some(v)) => stats::cleared(w, v),
        (None, None) => true,
        _ => false,
    }
}

/// The counters a report has for every queue and for the retired ones, under
/// their keys.
pub open spec fn counter_rows(s: QueueStatsSnapshot) -> Seq<(Seq<char>, u64)> {
    seq![
        ("read_cmds"@, s.read_cmds),
        ("write_cmds"@, s.write_cmds),
        ("flush_cmds"@, s.flush_cmds),
        ("other_cmds"@, s.other_cmds),
        ("read_bytes"@, s.read_bytes),
        ("write_bytes"@, s.write_bytes),
        ("errors"@, s.errors),
    ]
}

/// The counters of a snapshot, under their keys.
pub fn counters(s: &QueueStatsSnapshot) -> (r: Vec<(&'static str, u64)>)
    ensures
        stats::reported(r@) == counter_rows(*s),
{
    let mut r: Vec<(&'static str, u64)> = Vec::new();
    r.push(("read_cmds", s.read_cmds));
    r.push(("write_cmds", s.write_cmds));
    r.push(("flush_cmds", s.flush_cmds));
    r.push(("other_cmds", s.other_cmds));
    r.push(("read_bytes", s.read_bytes));
    r.push(("write_bytes", s.write_bytes));
    r.push(("errors", s.errors));
    assert(stats::reported(r@) =~= counter_rows(*s));
    r
}

/// What a thread's ring counts.
#[derive(Debug, Clone, Copy, PartialEq, Eq)]
pub struct RingStats {
    /// Times it parked.
    pub parks: u64,
    /// Submissions.
    pub sqes: u64,
    /// Send submissions.
    pub send_sqes: u64,
    /// Receive submissions.
    pub recv_sqes: u64,
    /// Read submissions.
    pub read_sqes: u64,
    /// Write submissions.
    pub write_sqes: u64,
    /// Completions.
    pub cqes: u64,
    /// Read/write submission batch sizes.
    pub rw_submit_hist: [u64; 6],
}

/// What a ring counts, under its keys.
pub open spec fn ring_rows(s: RingStats) -> Seq<(Seq<char>, u64)> {
    seq![
        ("parks"@, s.parks),
        ("sqes"@, s.sqes),
        ("send_sqes"@, s.send_sqes),
        ("recv_sqes"@, s.recv_sqes),
        ("read_sqes"@, s.read_sqes),
        ("write_sqes"@, s.write_sqes),
        ("cqes"@, s.cqes),
        ("rw_sq_b1"@, s.rw_submit_hist@[0]),
        ("rw_sq_b2"@, s.rw_submit_hist@[1]),
        ("rw_sq_b4"@, s.rw_submit_hist@[2]),
        ("rw_sq_b8"@, s.rw_submit_hist@[3]),
        ("rw_sq_b16"@, s.rw_submit_hist@[4]),
        ("rw_sq_b32"@, s.rw_submit_hist@[5]),
    ]
}

/// A ring that counted nothing.
pub open spec fn idle_ring(s: RingStats) -> bool {
    &&& s.parks == 0
    &&& s.sqes == 0
    &&& s.send_sqes == 0
    &&& s.recv_sqes == 0
    &&& s.read_sqes == 0
    &&& s.write_sqes == 0
    &&& s.cqes == 0
    &&& forall|i: int| 0 <= i < 6 ==> #[trigger] s.rw_submit_hist@[i] == 0
}

impl Default for RingStats {
    /// Nothing counted.
    fn default() -> (r: RingStats)
        ensures
            idle_ring(r),
    {
        RingStats {
            parks: 0,
            sqes: 0,
            send_sqes: 0,
            recv_sqes: 0,
            read_sqes: 0,
            write_sqes: 0,
            cqes: 0,
            rw_submit_hist: [0; 6],
        }
    }
}

impl RingStats {
    /// What the ring counts, under its keys.
    pub fn rows(&self) -> (r: Vec<(&'static str, u64)>)
        ensures
            stats::reported(r@) == ring_rows(*self),
    {
        let mut r: Vec<(&'static str, u64)> = Vec::new();
        r.push(("parks", self.parks));
        r.push(("sqes", self.sqes));
        r.push(("send_sqes", self.send_sqes));
        r.push(("recv_sqes", self.recv_sqes));
        r.push(("read_sqes", self.read_sqes));
        r.push(("write_sqes", self.write_sqes));
        r.push(("cqes", self.cqes));
        r.push(("rw_sq_b1", self.rw_submit_hist[0]));
        r.push(("rw_sq_b2", self.rw_submit_hist[1]));
        r.push(("rw_sq_b4", self.rw_submit_hist[2]));
        r.push(("rw_sq_b8", self.rw_submit_hist[3]));
        r.push(("rw_sq_b16", self.rw_submit_hist[4]));
        r.push(("rw_sq_b32", self.rw_submit_hist[5]));
        assert(stats::reported(r@) =~= ring_rows(*self));
        r
    }
}

/// What is reported of one queue.
#[derive(Debug)]
pub struct QueueReport {
    /// Its counters, under their keys.
    pub counters: Vec<(&'static str, u64)>,
    /// Queue id.
    pub qid: u16,
    /// Owning controller.
    pub cntlid: u16,
    /// Transport-specific counters, under their keys, if there are any.
    pub wr: Option<Vec<(&'static str, u64)>>,
}

/// Whether `r` reports `q`.
pub open spec fn reports_queue(r: QueueReport, q: QueueEntry) -> bool {
    &&& stats::reported(r.counters@) == counter_rows(queue::snapshot_of(q.stats))
    &&& r.qid == q.stats.qid
    &&& r.cntlid == q.stats.cntlid
    &&& match (r.wr, q.wr) {
        (Some(v), Some(w)) => stats::reported(v@) == stats::rows(w),
        (None, None) => true,
        _ => false,
    }
}

/// What is reported of a queue thread.
#[derive(Debug)]
pub struct ThreadReport {
    /// Its ring's counters, under their keys.
    pub ring: Vec<(&'static str, u64)>,
    /// Its queues.
    pub queues: Vec<QueueReport>,
    /// The retired queues' counters, under their keys.
    pub retired: Vec<(&'static str, u64)>,
}

/// Whether `r` reports just this.
pub open spec fn reports(
    r: ThreadReport,
    queues: Seq<QueueEntry>,
    gone: QueueStatsSnapshot,
    ring: RingStats,
) -> bool {
    &&& stats::reported(r.ring@) == ring_rows(ring)
    &&& stats::reported(r.retired@) == counter_rows(gone)
    &&& r.queues@.len() == queues.len()
    &&& forall|i: int| 0 <= i < queues.len() ==> reports_queue(#[trigger] r.queues@[i], queues[i])
}

impl ThreadStats {
    /// Nothing counted.
    pub fn new() -> (r: ThreadStats)
        ensures
            r.queues@ == Seq::<QueueEntry>::empty(),
            r.retired == queue::no_stats(),
    {
        ThreadStats { queues: Vec::new(), retired: QueueStatsSnapshot::default() }
    }

    /// Fold queues whose connection is gone into the retired accumulator, so
    /// lifetime totals stay monotonic across reconnects. Called on every
    /// connection handoff and stats request, which bounds the list under churn
    /// even if stats are never queried.
    pub fn prune_dead_queues(&mut self)
        requires
            sums_fit(old(self).queues@, old(self).retired),
        ensures
            final(self).queues@ == held(old(self).queues@, old(self).queues@.len()),
            final(self).retired == retired(
                old(self).queues@,
                old(self).retired,
                old(self).queues@.len(),
            ),
    {
        let ghost was = self.queues@;
        let ghost start = self.retired;
        let mut keep: Vec<QueueEntry> = Vec::new();
        let mut gone: QueueStatsSnapshot = self.retired;
        let n: usize = self.queues.len();
        for k in 0..n
            invariant
                n == was.len(),
                self.queues@ == was,
                sums_fit(was, start),
                keep@ == held(was, k as nat),
                gone == retired(was, start, k as nat),
        {
            let q: QueueEntry = self.queues[k];
            if q.held {
                keep.push(q);
            } else {
                let snap = q.stats.snapshot();
                assert(fits_at(was, start, k as int));
                gone.absorb(&snap);
            }
        }
        self.queues = keep;
        self.retired = gone;
    }

    /// Zero everything: every queue's counters and the retired accumulator.
    /// (The ring's are the caller's.)
    pub fn clear(&mut self)
        ensures
            final(self).retired == queue::no_stats(),
            final(self).queues@.len() == old(self).queues@.len(),
            forall|i: int|
                0 <= i < old(self).queues@.len() ==> cleared(
                    old(self).queues@[i],
                    #[trigger] final(self).queues@[i],
                ),
    {
        let n: usize = self.queues.len();
        for k in 0..n
            invariant
                n == self.queues@.len() == old(self).queues@.len(),
                forall|i: int|
                    0 <= i < k ==> cleared(old(self).queues@[i], #[trigger] self.queues@[i]),
                forall|i: int| k <= i < n ==> #[trigger] self.queues@[i] == old(self).queues@[i],
        {
            let mut q: QueueEntry = self.queues[k];
            q.stats.reset();
            match q.wr {
                Some(w) => {
                    let mut fresh = w;
                    fresh.reset();
                    q.wr = Some(fresh);
                },
                None => {},
            }
            self.queues[k] = q;
        }
        self.retired = QueueStatsSnapshot::default();
    }

    /// The report of what is counted now.
    pub fn report(&self, ring: &RingStats) -> (r: ThreadReport)
        ensures
            reports(r, self.queues@, self.retired, *ring),
    {
        let mut queues: Vec<QueueReport> = Vec::new();
        let n: usize = self.queues.len();
        for k in 0..n
            invariant
                n == self.queues@.len(),
                queues@.len() == k,
                forall|i: int|
                    0 <= i < k ==> reports_queue(#[trigger] queues@[i], self.queues@[i]),
        {
            let q: QueueEntry = self.queues[k];
            let snap = q.stats.snapshot();
            let wr = match q.wr {
                Some(w) => Some(w.snapshot()),
                None => None,
            };
            queues.push(
                QueueReport { counters: counters(&snap), qid: snap.qid, cntlid: snap.cntlid, wr },
            );
        }
        ThreadReport { ring: ring.rows(), queues, retired: counters(&self.retired) }
    }

    /// Answer a stats request: prune dead queues, report, then zero every
    /// counter if `clear` is set.
    pub fn answer(&mut self, ring: &RingStats, clear: bool) -> (r: ThreadReport)
        requires
            sums_fit(old(self).queues@, old(self).retired),
        ensures
            ({
                let live = held(old(self).queues@, old(self).queues@.len());
                let gone = retired(
                    old(self).queues@,
                    old(self).retired,
                    old(self).queues@.len(),
                );
                &&& reports(r, live, gone, *ring)
                &&& final(self).queues@.len() == live.len()
                &&& !clear ==> final(self).queues@ == live && final(self).retired == gone
                &&& clear ==> final(self).retired == queue::no_stats() && forall|i: int|
                    0 <= i < live.len() ==> cleared(live[i], #[trigger] final(self).queues@[i])
            }),
    {
        self.prune_dead_queues();
        let r = self.report(ring);
        if clear {
            self.clear();
        }
        r
    }
}

/// The report for a thread that is not running: nothing counted.
pub fn zeroed_stats() -> (r: ThreadReport)
    ensures
        exists|ring: RingStats| #[trigger]
            idle_ring(ring) && reports(r, Seq::<QueueEntry>::empty(), queue::no_stats(), ring),
{
    let ring = RingStats::default();
    ThreadStats::new().report(&ring)
}

/// The counters there are.
#[derive(Debug, Clone, Copy, PartialEq, Eq, Structural)]
pub enum Counter {
    /// Read commands.
    Reads,
    /// Write commands.
    Writes,
    /// Flush commands.
    Flushes,
    /// Other commands.
    Others,
    /// Bytes read.
    BytesRead,
    /// Bytes written.
    BytesWritten,
    /// Commands that failed.
    Errors,
}

/// What `s` has counted of `c`.
pub open spec fn tally(s: QueueStatsSnapshot, c: Counter) -> nat {
    match c {
        Counter::Reads => s.read_cmds as nat,
        Counter::Writes => s.write_cmds as nat,
        Counter::Flushes => s.flush_cmds as nat,
        Counter::Others => s.other_cmds as nat,
        Counter::BytesRead => s.read_bytes as nat,
        Counter::BytesWritten => s.write_bytes as nat,
        Counter::Errors => s.errors as nat,
    }
}

/// What the first `k` queues and the retired ones have counted of `c`.
pub open spec fn total(v: Seq<QueueEntry>, gone: QueueStatsSnapshot, c: Counter, k: nat) -> nat
    decreases k,
{
    if k == 0 {
        tally(gone, c)
    } else {
        total(v, gone, c, (k - 1) as nat) + tally(queue::snapshot_of(v[k - 1].stats), c)
    }
}

/// Pruning loses no count: the total of every counter over the live and the
/// retired queues stays what it was.
pub proof fn lemma_prune_keeps_totals(
    v: Seq<QueueEntry>,
    start: QueueStatsSnapshot,
    c: Counter,
    k: nat,
)
    requires
        k <= v.len(),
        sums_fit(v, start),
    ensures
        total(held(v, k), retired(v, start, k), c, held(v, k).len()) == total(v, start, c, k),
    decreases k,
{
    if k > 0 {
        let m = (k - 1) as nat;
        lemma_prune_keeps_totals(v, start, c, m);
        let h = held(v, m);
        let g = retired(v, start, m);
        if v[k - 1].held {
            let h2 = h.push(v[k - 1]);
            lemma_total_prefix(h2, h, g, c, h.len());
        } else {
            assert(fits_at(v, start, k - 1));
            lemma_total_base(h, g, retired(v, start, k), c, h.len());
        }
    }
}

proof fn lemma_total_prefix(
    a: Seq<QueueEntry>,
    b: Seq<QueueEntry>,
    g: QueueStatsSnapshot,
    c: Counter,
    k: nat,
)
    requires
        k <= a.len(),
        k <= b.len(),
        forall|i: int| 0 <= i < k ==> a[i] == b[i],
    ensures
        total(a, g, c, k) == total(b, g, c, k),
    decreases k,
{
    if k > 0 {
        lemma_total_prefix(a, b, g, c, (k - 1) as nat);
    }
}

proof fn lemma_total_base(
    v: Seq<QueueEntry>,
    g: QueueStatsSnapshot,
    h: QueueStatsSnapshot,
    c: Counter,
    k: nat,
)
    requires
        k <= v.len(),
        tally(g, c) <= tally(h, c),
    ensures
        total(v, h, c, k) == total(v, g, c, k) + (tally(h, c) - tally(g, c)),
    decreases k,
{
    if k > 0 {
        lemma_total_base(v, g, h, c, (k - 1) as nat);
    }
}

// ---------------------------------------------------------------------------
// What a report says
// ---------------------------------------------------------------------------

/// The key a counter is reported under.
pub open spec fn key(c: Counter) -> Seq<char> {
    match c {
        Counter::Reads => "read_cmds"@,
        Counter::Writes => "write_cmds"@,
        Counter::Flushes => "flush_cmds"@,
        Counter::Others => "other_cmds"@,
        Counter::BytesRead => "read_bytes"@,
        Counter::BytesWritten => "write_bytes"@,
        Counter::Errors => "errors"@,
    }
}

/// Whether `rows` give `n` under `key` and nothing else.
pub open spec fn says(rows: Seq<(Seq<char>, u64)>, key: Seq<char>, n: nat) -> bool {
    &&& exists|i: int| 0 <= i < rows.len() && (#[trigger] rows[i]).0 == key
    &&& forall|i: int| 0 <= i < rows.len() && (#[trigger] rows[i]).0 == key ==> rows[i].1 == n
}

/// No two counters share a key.
pub proof fn lemma_keys_differ(c: Counter, d: Counter)
    ensures
        key(c) == key(d) <==> c == d,
{
    reveal_strlit("read_cmds");
    reveal_strlit("write_cmds");
    reveal_strlit("flush_cmds");
    reveal_strlit("other_cmds");
    reveal_strlit("read_bytes");
    reveal_strlit("write_bytes");
    reveal_strlit("errors");
    if key(c) == key(d) {
        assert(key(c)[0] == key(d)[0]);
        assert(key(c)[key(c).len() - 1] == key(d)[key(d).len() - 1]);
        assert(key(c)[5] == key(d)[5]);
    }
}

/// Under the key of each counter a report has what was counted of it.
pub proof fn lemma_counters_reported(s: QueueStatsSnapshot, c: Counter)
    ensures
        says(counter_rows(s), key(c), tally(s, c)),
{
    let rows = counter_rows(s);
    lemma_keys_differ(c, Counter::Reads);
    lemma_keys_differ(c, Counter::Writes);
    lemma_keys_differ(c, Counter::Flushes);
    lemma_keys_differ(c, Counter::Others);
    lemma_keys_differ(c, Counter::BytesRead);
    lemma_keys_differ(c, Counter::BytesWritten);
    lemma_keys_differ(c, Counter::Errors);
    assert(rows[0].0 == key(Counter::Reads));
    assert(rows[1].0 == key(Counter::Writes));
    assert(rows[2].0 == key(Counter::Flushes));
    assert(rows[3].0 == key(Counter::Others));
    assert(rows[4].0 == key(Counter::BytesRead));
    assert(rows[5].0 == key(Counter::BytesWritten));
    assert(rows[6].0 == key(Counter::Errors));
}

/// What a command adds to a counter, when its first operation ended in `result`.
pub open spec fn added(
    sqe: Sqe,
    n: nat,
    plan: io::Plan,
    result: Result<(), BackendError>,
    c: Counter,
) -> nat {
    let ran = plan is Run;
    let done = ran && result is Ok;
    let forced = sqe.cdw12 / 0x4000_0000 % 2 == 1;
    match c {
        Counter::Reads => if sqe.opcode == 0x02 {
            1
        } else {
            0
        },
        Counter::Writes => if sqe.opcode == 0x01 {
            1
        } else {
            0
        },
        Counter::Flushes => if sqe.opcode == 0x00 {
            1
        } else {
            0
        },
        Counter::Others => if sqe.opcode > 0x02 {
            1
        } else {
            0
        },
        Counter::BytesRead => if done && sqe.opcode == 0x02 {
            n
        } else {
            0
        },
        Counter::BytesWritten => if done && sqe.opcode == 0x01 && !forced {
            n
        } else {
            0
        },
        Counter::Errors => if plan is Fail || ran && result is Err {
            1
        } else {
            0
        },
    }
}

/// What an operation of a command changes in the next report: a Read of `n`
/// bytes that succeeded adds one under `read_cmds` and `n` under `read_bytes`
/// and leaves `write_bytes` as it was, and so for every class of command and
/// every counter; a Write that has to be forced to the store has its bytes
/// counted once the flush is through.
pub proof fn lemma_command_reported(
    s: QueueStats,
    sqe: Sqe,
    g: io::Geometry,
    data: Seq<u8>,
    data_len: u32,
    result: Result<(), BackendError>,
    c: Counter,
)
    requires
        io::has_room(s),
    ensures
        ({
            let n = ((sqe.cdw12 % 0x1_0000 + 1) * backend::block_size(g.shift)) as nat;
            let plan = io::planned(sqe, g, data, data_len);
            let began = io::settled(io::classed(s, sqe.opcode), plan);
            let then = match plan {
                io::Plan::Run(_, after) => io::settled(
                    io::moved(began, after, result),
                    io::continued(after, result),
                ),
                _ => began,
            };
            says(
                counter_rows(queue::snapshot_of(then)),
                key(c),
                tally(queue::snapshot_of(s), c) + added(sqe, n, plan, result, c),
            )
        }),
{
    let plan = io::planned(sqe, g, data, data_len);
    io::lemma_command_counted(s, sqe, g, data, data_len, result);
    io::lemma_command_completes(sqe, g, data, data_len);
    let began = io::settled(io::classed(s, sqe.opcode), plan);
    let then = match plan {
        io::Plan::Run(_, after) => io::settled(
            io::moved(began, after, result),
            io::continued(after, result),
        ),
        _ => began,
    };
    lemma_counters_reported(queue::snapshot_of(then), c);
}

/// Only the queues that are gone leave, and those that stay keep their order.
pub proof fn lemma_held(v: Seq<QueueEntry>, k: nat)
    requires
        k <= v.len(),
    ensures
        held(v, k) == v.take(k as int).filter(|q: QueueEntry| q.held),
    decreases k,
{
    reveal(Seq::filter);
    let keep = |q: QueueEntry| q.held;
    if k > 0 {
        lemma_held(v, (k - 1) as nat);
        assert(v.take(k as int).drop_last() =~= v.take(k - 1));
        assert(v.take(k as int).last() == v[k - 1]);
        assert(v.take(k as int).filter(keep) == {
            let rest = v.take(k as int).drop_last().filter(keep);
            if keep(v[k - 1]) {
                rest.push(v[k - 1])
            } else {
                rest
            }
        });
    }
}

/// A fresh queue, and one whose counters were cleared, report nothing of any
/// counter; a queue that was cleared is still the same queue.
pub proof fn lemma_nothing_counted(a: QueueEntry, b: QueueEntry, c: Counter)
    ensures
        tally(queue::no_stats(), c) == 0,
        says(counter_rows(queue::no_stats()), key(c), 0),
        cleared(a, b) ==> says(counter_rows(queue::snapshot_of(b.stats)), key(c), 0) && b.stats.qid
            == a.stats.qid && b.stats.cntlid == a.stats.cntlid && b.conn == a.conn && b.held
            == a.held,
{
    lemma_counters_reported(queue::no_stats(), c);
    lemma_counters_reported(queue::snapshot_of(b.stats), c);
}

/// A thread's report has every queue's counters with that queue, and those of
/// the queues that are gone apart from them.
pub proof fn lemma_report(
    r: ThreadReport,
    queues: Seq<QueueEntry>,
    gone: QueueStatsSnapshot,
    ring: RingStats,
    c: Counter,
    i: int,
)
    requires
        reports(r, queues, gone, ring),
        0 <= i < queues.len(),
    ensures
        r.queues@.len() == queues.len(),
        says(stats::reported(r.retired@), key(c), tally(gone, c)),
        says(
            stats::reported(r.queues@[i].counters@),
            key(c),
            tally(queue::snapshot_of(queues[i].stats), c),
        ),
        r.queues@[i].qid == queues[i].stats.qid,
        r.queues@[i].cntlid == queues[i].stats.cntlid,
        r.queues@[i].wr is Some <==> queues[i].wr is Some,
{
    assert(reports_queue(r.queues@[i], queues[i]));
    lemma_counters_reported(gone, c);
    lemma_counters_reported(queue::snapshot_of(queues[i].stats), c);
}

/// Every ring counter is reported under its own key, and the batch sizes under
/// the largest batch their bucket takes.
pub proof fn lemma_ring_reported(s: RingStats)
    ensures
        ring_rows(s).len() == 13,
        ring_rows(s).contains(("parks"@, s.parks)),
        ring_rows(s).contains(("sqes"@, s.sqes)),
        ring_rows(s).contains(("send_sqes"@, s.send_sqes)),
        ring_rows(s).contains(("recv_sqes"@, s.recv_sqes)),
        ring_rows(s).contains(("read_sqes"@, s.read_sqes)),
        ring_rows(s).contains(("write_sqes"@, s.write_sqes)),
        ring_rows(s).contains(("cqes"@, s.cqes)),
        ring_rows(s).contains(("rw_sq_b1"@, s.rw_submit_hist@[0])),
        ring_rows(s).contains(("rw_sq_b2"@, s.rw_submit_hist@[1])),
        ring_rows(s).contains(("rw_sq_b4"@, s.rw_submit_hist@[2])),
        ring_rows(s).contains(("rw_sq_b8"@, s.rw_submit_hist@[3])),
        ring_rows(s).contains(("rw_sq_b16"@, s.rw_submit_hist@[4])),
        ring_rows(s).contains(("rw_sq_b32"@, s.rw_submit_hist@[5])),
{
    let r = ring_rows(s);
    assert(r[0] == ("parks"@, s.parks));
    assert(r[1] == ("sqes"@, s.sqes));
    assert(r[2] == ("send_sqes"@, s.send_sqes));
    assert(r[3] == ("recv_sqes"@, s.recv_sqes));
    assert(r[4] == ("read_sqes"@, s.read_sqes));
    assert(r[5] == ("write_sqes"@, s.write_sqes));
    assert(r[6] == ("cqes"@, s.cqes));
    assert(r[7] == ("rw_sq_b1"@, s.rw_submit_hist@[0]));
    assert(r[8] == ("rw_sq_b2"@, s.rw_submit_hist@[1]));
    assert(r[9] == ("rw_sq_b4"@, s.rw_submit_hist@[2]));
    assert(r[10] == ("rw_sq_b8"@, s.rw_submit_hist@[3]));
    assert(r[11] == ("rw_sq_b16"@, s.rw_submit_hist@[4]));
    assert(r[12] == ("rw_sq_b32"@, s.rw_submit_hist@[5]));
}

} // verus!
