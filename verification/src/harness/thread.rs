//! Queue threads: the connections one runs, the changes it passes on to them,
//! and how it stops.

use vstd::prelude::*;

use crate::harness::stats;
use crate::harness::stats::{QueueEntry, RingStats, ThreadReport, ThreadStats};

verus! {

/// Milliseconds a queue thread waits for its stopped connections to finish
/// before reporting the stragglers and exiting anyway. Comfortably over a
/// healthy teardown but well under the control thread's wait for the ack.
pub const CONN_DRAIN_BUDGET_MS: u32 = 5_000;

/// Milliseconds between two looks at the connections that are to finish.
pub const CONN_DRAIN_POLL_MS: u32 = 2;

/// A change the control plane tells the hosts of.
#[derive(Debug, Clone, Copy, PartialEq, Eq, Structural)]
pub enum Change {
    /// A namespace came, went or changed.
    Namespace,
    /// A namespace changed ANA group or state.
    Ana,
    /// The discovery log changed.
    Discovery,
}

/// A connection's async-event nudges.
#[derive(Debug, Clone, Copy, PartialEq, Eq, Structural)]
pub struct ChangeNudge {
    /// The connection.
    pub conn: u64,
    /// Its subsystem reports ANA.
    pub ana: bool,
    /// It is a discovery controller.
    pub discovery: bool,
}

/// Whether `n` raises an event for `change`.
pub open spec fn takes(n: ChangeNudge, change: Change) -> bool {
    match change {
        Change::Namespace => true,
        Change::Ana => n.ana,
        Change::Discovery => n.discovery,
    }
}

/// What a connection reports to its queue thread once its dispatch state
/// exists.
#[derive(Debug, Clone, Copy)]
pub struct ConnHandles {
    /// The queue's lifetime stats, recorded for aggregation.
    pub stats: QueueEntry,
    /// Async-event nudges for this connection.
    pub changes: ChangeNudge,
}

/// A connection a queue thread runs.
#[derive(Debug, Clone, Copy, PartialEq, Eq, Structural)]
pub struct ConnEntry {
    /// The connection.
    pub conn: u64,
    /// It has reported how to ask it to wind down.
    pub stop: bool,
}

fn is_in(v: &[u64], x: u64) -> (r: bool)
    ensures
        r == v@.contains(x),
{
    let n: usize = v.len();
    for i in 0..n
        invariant
            n == v@.len(),
            forall|j: int| 0 <= j < i ==> v@[j] != x,
    {
        if v[i] == x {
            return true;
        }
    }
    false
}

/// Those of the first `k` connections that have not ended.
pub open spec fn running(v: Seq<ConnEntry>, ended: Seq<u64>, k: nat) -> Seq<ConnEntry>
    decreases k,
{
    if k == 0 {
        seq![]
    } else {
        let rest = running(v, ended, (k - 1) as nat);
        if ended.contains(v[k - 1].conn) {
            rest
        } else {
            rest.push(v[k - 1])
        }
    }
}

/// Those of the first `k` connections that can be asked to wind down.
pub open spec fn stoppable(v: Seq<ConnEntry>, k: nat) -> Seq<u64>
    decreases k,
{
    if k == 0 {
        seq![]
    } else {
        let rest = stoppable(v, (k - 1) as nat);
        if v[k - 1].stop {
            rest.push(v[k - 1].conn)
        } else {
            rest
        }
    }
}

/// The connections one queue thread is running.
#[derive(Debug)]
pub struct ConnTracker {
    /// The connections, in the order they came.
    pub conns: Vec<ConnEntry>,
}

impl ConnTracker {
    /// None.
    pub fn new() -> (r: ConnTracker)
        ensures
            r.conns@ == Seq::<ConnEntry>::empty(),
    {
        ConnTracker { conns: Vec::new() }
    }

    /// Track a fresh connection, first dropping the entries of connections that
    /// have since ended — which bounds the list under connect churn.
    pub fn track(&mut self, conn: u64, ended: &[u64])
        ensures
            final(self).conns@ == running(
                old(self).conns@,
                ended@,
                old(self).conns@.len(),
            ).push(ConnEntry { conn, stop: false }),
    {
        let mut left: Vec<ConnEntry> = Vec::new();
        let n: usize = self.conns.len();
        for i in 0..n
            invariant
                n == self.conns@.len(),
                self.conns@ == old(self).conns@,
                left@ == running(self.conns@, ended@, i as nat),
        {
            let entry = self.conns[i];
            if !is_in(ended, entry.conn) {
                left.push(entry);
            }
        }
        left.push(ConnEntry { conn, stop: false });
        self.conns = left;
    }

    /// Connection `conn` reported how to ask it to wind down.
    pub fn report(&mut self, conn: u64)
        ensures
            final(self).conns@ == Seq::new(
                old(self).conns@.len(),
                |i: int|
                    ConnEntry {
                        conn: old(self).conns@[i].conn,
                        stop: old(self).conns@[i].stop || old(self).conns@[i].conn == conn,
                    },
            ),
    {
        let n: usize = self.conns.len();
        for i in 0..n
            invariant
                n == self.conns@.len() == old(self).conns@.len(),
                forall|j: int|
                    0 <= j < i ==> #[trigger] self.conns@[j] == (ConnEntry {
                        conn: old(self).conns@[j].conn,
                        stop: old(self).conns@[j].stop || old(self).conns@[j].conn == conn,
                    }),
                forall|j: int| i <= j < n ==> #[trigger] self.conns@[j] == old(self).conns@[j],
        {
            if self.conns[i].conn == conn {
                self.conns[i] = ConnEntry { conn, stop: true };
            }
        }
    }

    /// The connections that can be asked to wind down.
    pub fn stops(&self) -> (r: Vec<u64>)
        ensures
            r@ == stoppable(self.conns@, self.conns@.len()),
    {
        let mut r: Vec<u64> = Vec::new();
        let n: usize = self.conns.len();
        for i in 0..n
            invariant
                n == self.conns@.len(),
                r@ == stoppable(self.conns@, i as nat),
        {
            if self.conns[i].stop {
                r.push(self.conns[i].conn);
            }
        }
        r
    }

    /// The connections that have not ended.
    pub fn running(&self, ended: &[u64]) -> (r: usize)
        ensures
            r == running(self.conns@, ended@, self.conns@.len()).len(),
    {
        let mut count: usize = 0;
        let n: usize = self.conns.len();
        for i in 0..n
            invariant
                n == self.conns@.len(),
                count <= i,
                count == running(self.conns@, ended@, i as nat).len(),
        {
            if !is_in(ended, self.conns[i].conn) {
                count = count + 1;
            }
        }
        count
    }
}

/// The wait for stopped connections: polled rather than awaited, because a
/// connection whose backend op is wedged never finishes, and shutdown must not
/// hang on one.
#[derive(Debug, Clone, Copy, PartialEq, Eq, Structural)]
pub struct Drain {
    /// Milliseconds waited.
    pub waited: u32,
    /// The clock failed.
    pub broken: bool,
}

impl Drain {
    /// Never waits past the budget.
    pub open spec fn wf(&self) -> bool {
        self.waited <= CONN_DRAIN_BUDGET_MS && self.waited % CONN_DRAIN_POLL_MS == 0
    }

    /// Nothing waited yet.
    pub fn start() -> (r: Drain)
        ensures
            r.wf(),
            r == (Drain { waited: 0, broken: false }),
    {
        Drain { waited: 0, broken: false }
    }

    /// Whether to wait another [`CONN_DRAIN_POLL_MS`], with `running`
    /// connections left.
    pub fn wait(&self, running: usize) -> (r: bool)
        ensures
            r == (running > 0 && self.waited < CONN_DRAIN_BUDGET_MS && !self.broken),
    {
        running > 0 && self.waited < CONN_DRAIN_BUDGET_MS && !self.broken
    }

    /// It waited, or the wait failed, which ends it.
    pub fn slept(&mut self, ok: bool)
        requires
            old(self).wf(),
            old(self).waited < CONN_DRAIN_BUDGET_MS,
        ensures
            final(self).wf(),
            *final(self) == (if ok {
                Drain { waited: (old(self).waited + CONN_DRAIN_POLL_MS) as u32, ..*old(self) }
            } else {
                Drain { broken: true, ..*old(self) }
            }),
    {
        if ok {
            self.waited = self.waited + CONN_DRAIN_POLL_MS;
        } else {
            self.broken = true;
        }
    }
}

/// The polls a drain has left: a bound on how long it can go on.
pub open spec fn polls_left(d: Drain) -> nat {
    if d.broken || d.waited >= CONN_DRAIN_BUDGET_MS {
        0
    } else {
        ((CONN_DRAIN_BUDGET_MS - d.waited) / CONN_DRAIN_POLL_MS as int) as nat
    }
}

/// A drain ends, whatever its connections do: every wait leaves fewer polls,
/// and without polls left it waits no more.
pub proof fn lemma_drain_ends(d: Drain, after: Drain, ok: bool)
    requires
        d.wf(),
        d.waited < CONN_DRAIN_BUDGET_MS,
        !d.broken,
        after == (if ok {
            Drain { waited: (d.waited + CONN_DRAIN_POLL_MS) as u32, ..d }
        } else {
            Drain { broken: true, ..d }
        }),
    ensures
        polls_left(after) < polls_left(d),
        polls_left(after) == 0 ==> after.broken || after.waited >= CONN_DRAIN_BUDGET_MS,
{
}

/// The nudges of the first `k` that are alive.
pub open spec fn alive(v: Seq<ChangeNudge>, ended: Seq<u64>, k: nat) -> Seq<ChangeNudge>
    decreases k,
{
    if k == 0 {
        seq![]
    } else {
        let rest = alive(v, ended, (k - 1) as nat);
        if ended.contains(v[k - 1].conn) {
            rest
        } else {
            rest.push(v[k - 1])
        }
    }
}

/// The connections of the first `k` nudges that raise an event for `change`.
pub open spec fn fired(v: Seq<ChangeNudge>, change: Change, k: nat) -> Seq<u64>
    decreases k,
{
    if k == 0 {
        seq![]
    } else {
        let rest = fired(v, change, (k - 1) as nat);
        if takes(v[k - 1], change) {
            rest.push(v[k - 1].conn)
        } else {
            rest
        }
    }
}

fn retain_alive(live: &Vec<ChangeNudge>, ended: &[u64]) -> (r: Vec<ChangeNudge>)
    ensures
        r@ == alive(live@, ended@, live@.len()),
{
    let mut r: Vec<ChangeNudge> = Vec::new();
    let n: usize = live.len();
    for i in 0..n
        invariant
            n == live@.len(),
            r@ == alive(live@, ended@, i as nat),
    {
        let nudge = live[i];
        if !is_in(ended, nudge.conn) {
            r.push(nudge);
        }
    }
    r
}

/// Raise `change` on every live connection, dropping the dead ones on the way
/// through. Returns the connections whose event fires.
pub fn nudge_live(live: &mut Vec<ChangeNudge>, change: Change, ended: &[u64]) -> (r: Vec<u64>)
    ensures
        final(live)@ == alive(old(live)@, ended@, old(live)@.len()),
        r@ == fired(final(live)@, change, final(live)@.len()),
{
    let left = retain_alive(live, ended);
    let mut r: Vec<u64> = Vec::new();
    let n: usize = left.len();
    for i in 0..n
        invariant
            n == left@.len(),
            r@ == fired(left@, change, i as nat),
    {
        let nudge = left[i];
        let takes: bool = match change {
            Change::Namespace => true,
            Change::Ana => nudge.ana,
            Change::Discovery => nudge.discovery,
        };
        if takes {
            r.push(nudge.conn);
        }
    }
    *live = left;
    r
}

/// A message to a queue thread.
#[derive(Debug, Clone, Copy, PartialEq, Eq, Structural)]
pub enum Msg {
    /// Run this connection.
    Conn(u64),
    /// Tell the hosts.
    Changed(Change),
    /// Report what was counted.
    Stats {
        /// Then zero every counter.
        clear: bool,
    },
    /// Stop the connections, then leave.
    Shutdown,
    /// The mailbox failed.
    Failed,
}

/// What a queue thread does about a message.
#[derive(Debug)]
pub enum Deed {
    /// Run the connection of the message.
    Run,
    /// Raise the event on these connections.
    Raise(Vec<u64>),
    /// Send this report.
    Answer(ThreadReport),
    /// Ask these connections to wind down, wait for them, acknowledge and leave.
    Stop(Vec<u64>),
    /// Leave.
    Leave,
}

/// A queue thread. Only the admin thread's list of nudges is ever filled.
#[derive(Debug)]
pub struct QueueThread {
    /// It is the admin thread.
    pub admin: bool,
    /// What it counts.
    pub stats: ThreadStats,
    /// Async-event nudges of the live connections.
    pub live: Vec<ChangeNudge>,
    /// The connections it runs.
    pub conns: ConnTracker,
}

/// The queues with those whose connection has ended let go of.
pub open spec fn let_go(v: Seq<QueueEntry>, ended: Seq<u64>) -> Seq<QueueEntry> {
    Seq::new(v.len(), |i: int| QueueEntry { held: !ended.contains(v[i].conn), ..v[i] })
}

/// Whether `after` is the queues of `before` that are still held, the others
/// retired.
pub open spec fn pruned(before: ThreadStats, after: ThreadStats, ended: Seq<u64>) -> bool {
    let v = let_go(before.queues@, ended);
    &&& after.queues@ == stats::held(v, v.len())
    &&& after.retired == stats::retired(v, before.retired, v.len())
}

/// Whether the thread answers with a report of its queues, those of connections
/// that ended retired, and counts on from there — from nothing, where it is to
/// clear.
pub open spec fn answers(
    before: ThreadStats,
    after: ThreadStats,
    ended: Seq<u64>,
    ring: RingStats,
    clear: bool,
    r: ThreadReport,
) -> bool {
    let v = let_go(before.queues@, ended);
    let left = stats::held(v, v.len());
    let gone = stats::retired(v, before.retired, v.len());
    &&& stats::reports(r, left, gone, ring)
    &&& after.queues@.len() == left.len()
    &&& !clear ==> after.queues@ == left && after.retired == gone
    &&& clear ==> after.retired == crate::queue::no_stats() && forall|i: int|
        0 <= i < left.len() ==> stats::cleared(left[i], #[trigger] after.queues@[i])
}

impl QueueThread {
    /// A thread that has just started.
    pub fn new(admin: bool) -> (r: QueueThread)
        ensures
            r.admin == admin,
            r.stats.queues@ == Seq::<QueueEntry>::empty(),
            r.stats.retired == crate::queue::no_stats(),
            r.live@ == Seq::<ChangeNudge>::empty(),
            r.conns.conns@ == Seq::<ConnEntry>::empty(),
    {
        QueueThread {
            admin,
            stats: ThreadStats::new(),
            live: Vec::new(),
            conns: ConnTracker::new(),
        }
    }

    fn release_queues(&mut self, ended: &[u64])
        ensures
            final(self).stats.queues@ == let_go(old(self).stats.queues@, ended@),
            final(self).stats.retired == old(self).stats.retired,
            final(self).admin == old(self).admin,
            final(self).live == old(self).live,
            final(self).conns == old(self).conns,
    {
        let n: usize = self.stats.queues.len();
        for i in 0..n
            invariant
                n == self.stats.queues@.len() == old(self).stats.queues@.len(),
                self.stats.retired == old(self).stats.retired,
                self.admin == old(self).admin,
                self.live == old(self).live,
                self.conns == old(self).conns,
                forall|j: int|
                    0 <= j < i ==> #[trigger] self.stats.queues@[j] == let_go(
                        old(self).stats.queues@,
                        ended@,
                    )[j],
                forall|j: int|
                    i <= j < n ==> #[trigger] self.stats.queues@[j]
                        == old(self).stats.queues@[j],
        {
            let mut entry: QueueEntry = self.stats.queues[i];
            entry.held = !is_in(ended, entry.conn);
            self.stats.queues[i] = entry;
        }
        assert(self.stats.queues@ =~= let_go(old(self).stats.queues@, ended@));
    }

    /// Take a message up, with the connections that have `ended` so far.
    ///
    /// Every handoff and every stats request drops what is left of connections
    /// that are gone, so the lists stay bounded under connect churn even if
    /// nothing ever changes and nobody ever asks.
    pub fn handle(&mut self, msg: Msg, ended: &[u64], ring: &RingStats) -> (r: Deed)
        requires
            stats::sums_fit(
                let_go(old(self).stats.queues@, ended@),
                old(self).stats.retired,
            ),
        ensures
            final(self).admin == old(self).admin,
            match msg {
                Msg::Conn(conn) => {
                    &&& r is Run
                    &&& pruned(old(self).stats, final(self).stats, ended@)
                    &&& final(self).live@ == alive(old(self).live@, ended@, old(self).live@.len())
                    &&& final(self).conns.conns@ == running(
                        old(self).conns.conns@,
                        ended@,
                        old(self).conns.conns@.len(),
                    ).push(ConnEntry { conn, stop: false })
                },
                Msg::Changed(change) => {
                    &&& r is Raise
                    &&& final(self).live@ == alive(old(self).live@, ended@, old(self).live@.len())
                    &&& r->Raise_0@ == fired(final(self).live@, change, final(self).live@.len())
                    &&& final(self).stats == old(self).stats
                    &&& final(self).conns == old(self).conns
                },
                Msg::Stats { clear } => {
                    &&& r is Answer
                    &&& answers(
                        old(self).stats,
                        final(self).stats,
                        ended@,
                        *ring,
                        clear,
                        r->Answer_0,
                    )
                    &&& final(self).live == old(self).live
                    &&& final(self).conns == old(self).conns
                },
                Msg::Shutdown => {
                    &&& r is Stop
                    &&& r->Stop_0@ == stoppable(
                        old(self).conns.conns@,
                        old(self).conns.conns@.len(),
                    )
                    &&& *final(self) == *old(self)
                },
                Msg::Failed => r is Leave && *final(self) == *old(self),
            },
    {
        match msg {
            Msg::Conn(conn) => {
                self.release_queues(ended);
                self.stats.prune_dead_queues();
                let left = retain_alive(&self.live, ended);
                self.live = left;
                self.conns.track(conn, ended);
                Deed::Run
            },
            Msg::Changed(change) => Deed::Raise(nudge_live(&mut self.live, change, ended)),
            Msg::Stats { clear } => {
                self.release_queues(ended);
                Deed::Answer(self.stats.answer(ring, clear))
            },
            Msg::Shutdown => Deed::Stop(self.conns.stops()),
            Msg::Failed => Deed::Leave,
        }
    }

    /// Connection `conn` reported its handles: every thread counts for its
    /// queue and can ask it to stop, and the admin thread keeps its nudges.
    pub fn installed(&mut self, conn: u64, handles: ConnHandles)
        ensures
            final(self).admin == old(self).admin,
            final(self).stats.queues@ == old(self).stats.queues@.push(handles.stats),
            final(self).stats.retired == old(self).stats.retired,
            final(self).live@ == (if old(self).admin {
                old(self).live@.push(handles.changes)
            } else {
                old(self).live@
            }),
            final(self).conns.conns@ == Seq::new(
                old(self).conns.conns@.len(),
                |i: int|
                    ConnEntry {
                        conn: old(self).conns.conns@[i].conn,
                        stop: old(self).conns.conns@[i].stop || old(self).conns.conns@[i].conn
                            == conn,
                    },
            ),
    {
        self.stats.queues.push(handles.stats);
        if self.admin {
            self.live.push(handles.changes);
        }
        self.conns.report(conn);
    }
}

/// No event is ever raised on a connection that has ended, and every live
/// connection that takes the change has it raised.
pub proof fn lemma_nudges_reach_the_living(
    v: Seq<ChangeNudge>,
    ended: Seq<u64>,
    change: Change,
    conn: u64,
)
    ensures
        ({
            let left = alive(v, ended, v.len());
            let to = fired(left, change, left.len());
            &&& to.contains(conn) ==> !ended.contains(conn)
            &&& forall|i: int|
                0 <= i < v.len() && (#[trigger] v[i]).conn == conn && takes(v[i], change)
                    && !ended.contains(conn) ==> to.contains(conn)
        }),
{
    let left = alive(v, ended, v.len());
    lemma_alive(v, ended, v.len());
    lemma_fired(left, change, left.len(), conn);
    assert forall|i: int|
        0 <= i < v.len() && (#[trigger] v[i]).conn == conn && takes(v[i], change)
            && !ended.contains(conn) implies fired(left, change, left.len()).contains(conn) by {
        assert(left.contains(v[i]));
        let j = choose|j: int| 0 <= j < left.len() && left[j] == v[i];
        assert(left[j].conn == conn && takes(left[j], change));
    }
}

proof fn lemma_alive(v: Seq<ChangeNudge>, ended: Seq<u64>, k: nat)
    requires
        k <= v.len(),
    ensures
        forall|i: int|
            0 <= i < alive(v, ended, k).len() ==> !ended.contains(
                (#[trigger] alive(v, ended, k)[i]).conn,
            ),
        forall|i: int|
            0 <= i < k && !ended.contains((#[trigger] v[i]).conn) ==> alive(v, ended, k).contains(
                v[i],
            ),
    decreases k,
{
    if k > 0 {
        lemma_alive(v, ended, (k - 1) as nat);
        let rest = alive(v, ended, (k - 1) as nat);
        let all = alive(v, ended, k);
        assert forall|i: int| 0 <= i < k && !ended.contains((#[trigger] v[i]).conn) implies all.contains(
            v[i],
        ) by {
            if i == k - 1 {
                assert(all[rest.len() as int] == v[i]);
            } else {
                assert(rest.contains(v[i]));
                let j = choose|j: int| 0 <= j < rest.len() && rest[j] == v[i];
                assert(all[j] == v[i]);
            }
        }
    }
}

proof fn lemma_fired(v: Seq<ChangeNudge>, change: Change, k: nat, conn: u64)
    requires
        k <= v.len(),
    ensures
        fired(v, change, k).contains(conn) <==> exists|i: int|
            0 <= i < k && (#[trigger] v[i]).conn == conn && takes(v[i], change),
    decreases k,
{
    if k > 0 {
        lemma_fired(v, change, (k - 1) as nat, conn);
        let rest = fired(v, change, (k - 1) as nat);
        if takes(v[k - 1], change) {
            let all = rest.push(v[k - 1].conn);
            assert(all.contains(conn) <==> rest.contains(conn) || v[k - 1].conn == conn) by {
                if all.contains(conn) {
                    let i = choose|i: int| 0 <= i < all.len() && all[i] == conn;
                    if i < rest.len() {
                        assert(rest[i] == conn);
                    }
                }
                if rest.contains(conn) {
                    let i = choose|i: int| 0 <= i < rest.len() && rest[i] == conn;
                    assert(all[i] == conn);
                }
                assert(all[rest.len() as int] == v[k - 1].conn);
            }
        }
    }
}

/// Who is told of a change: of a namespace every live connection, of ANA those
/// whose subsystem reports it, of the discovery log the discovery controllers.
pub proof fn lemma_told(v: Seq<ChangeNudge>, ended: Seq<u64>, conn: u64)
    ensures
        ({
            let left = alive(v, ended, v.len());
            let live = exists|i: int| 0 <= i < left.len() && (#[trigger] left[i]).conn == conn;
            let ana = exists|i: int|
                0 <= i < left.len() && (#[trigger] left[i]).conn == conn && left[i].ana;
            let discovery = exists|i: int|
                0 <= i < left.len() && (#[trigger] left[i]).conn == conn && left[i].discovery;
            &&& fired(left, Change::Namespace, left.len()).contains(conn) <==> live
            &&& fired(left, Change::Ana, left.len()).contains(conn) <==> ana
            &&& fired(left, Change::Discovery, left.len()).contains(conn) <==> discovery
        }),
        alive(v, ended, v.len()) == v.filter(|n: ChangeNudge| !ended.contains(n.conn)),
{
    let left = alive(v, ended, v.len());
    lemma_fired(left, Change::Namespace, left.len(), conn);
    lemma_fired(left, Change::Ana, left.len(), conn);
    lemma_fired(left, Change::Discovery, left.len(), conn);
    lemma_alive_filter(v, ended, v.len());
    assert(v.take(v.len() as int) =~= v);
}

proof fn lemma_alive_filter(v: Seq<ChangeNudge>, ended: Seq<u64>, k: nat)
    requires
        k <= v.len(),
    ensures
        alive(v, ended, k) == v.take(k as int).filter(|n: ChangeNudge| !ended.contains(n.conn)),
    decreases k,
{
    reveal(Seq::filter);
    let keep = |n: ChangeNudge| !ended.contains(n.conn);
    if k > 0 {
        lemma_alive_filter(v, ended, (k - 1) as nat);
        assert(v.take(k as int).drop_last() =~= v.take(k - 1));
        assert(v.take(k as int).last() == v[k - 1]);
        assert(v.take(k as int).filter(keep) == {
            let rest = v.take(k as int).drop_last().filter(keep);
            if keep(v[k - 1]) {
                rest.push(v[k - 1])
            } else {
                rest
            }
        });
    }
}

/// The connections a thread still runs are those it ran that have not ended, in
/// the order they came.
pub proof fn lemma_running(v: Seq<ConnEntry>, ended: Seq<u64>, k: nat)
    requires
        k <= v.len(),
    ensures
        running(v, ended, k) == v.take(k as int).filter(|c: ConnEntry| !ended.contains(c.conn)),
    decreases k,
{
    reveal(Seq::filter);
    let keep = |c: ConnEntry| !ended.contains(c.conn);
    if k > 0 {
        lemma_running(v, ended, (k - 1) as nat);
        assert(v.take(k as int).drop_last() =~= v.take(k - 1));
        assert(v.take(k as int).last() == v[k - 1]);
        assert(v.take(k as int).filter(keep) == {
            let rest = v.take(k as int).drop_last().filter(keep);
            if keep(v[k - 1]) {
                rest.push(v[k - 1])
            } else {
                rest
            }
        });
    }
}

/// The connections asked to wind down are those that have reported how.
pub proof fn lemma_stoppable(v: Seq<ConnEntry>, k: nat, conn: u64)
    requires
        k <= v.len(),
    ensures
        stoppable(v, k).contains(conn) <==> exists|i: int|
            0 <= i < k && (#[trigger] v[i]).conn == conn && v[i].stop,
    decreases k,
{
    if k > 0 {
        lemma_stoppable(v, (k - 1) as nat, conn);
        let rest = stoppable(v, (k - 1) as nat);
        if v[k - 1].stop {
            let all = rest.push(v[k - 1].conn);
            if all.contains(conn) {
                let i = choose|i: int| 0 <= i < all.len() && all[i] == conn;
                if i < rest.len() {
                    assert(rest[i] == conn);
                }
            }
            if rest.contains(conn) {
                let i = choose|i: int| 0 <= i < rest.len() && rest[i] == conn;
                assert(all[i] == conn);
            }
            assert(all[rest.len() as int] == v[k - 1].conn);
        }
    }
}

/// A thread that drops the queues of connections that have ended loses no count
/// of theirs: of every counter, what the queues that stay and those that are
/// gone have counted is what all had counted before. No queue of a connection
/// that has ended stays, and every other one does.
pub proof fn lemma_pruned(
    before: ThreadStats,
    after: ThreadStats,
    ended: Seq<u64>,
    c: stats::Counter,
    i: int,
)
    requires
        pruned(before, after, ended),
        stats::sums_fit(let_go(before.queues@, ended), before.retired),
    ensures
        stats::total(after.queues@, after.retired, c, after.queues@.len()) == stats::total(
            before.queues@,
            before.retired,
            c,
            before.queues@.len(),
        ),
        0 <= i < after.queues@.len() ==> !ended.contains(after.queues@[i].conn),
        0 <= i < before.queues@.len() && !ended.contains(before.queues@[i].conn)
            ==> after.queues@.contains(QueueEntry { held: true, ..before.queues@[i] }),
{
    let v = let_go(before.queues@, ended);
    stats::lemma_prune_keeps_totals(v, before.retired, c, v.len());
    lemma_let_go_totals(before.queues@, ended, before.retired, c, v.len());
    lemma_held_are(v, ended, v.len(), i);
    if 0 <= i < v.len() && !ended.contains(before.queues@[i].conn) {
        assert(v[i] == QueueEntry { held: true, ..before.queues@[i] });
    }
}

proof fn lemma_let_go_totals(
    v: Seq<QueueEntry>,
    ended: Seq<u64>,
    gone: crate::queue::QueueStatsSnapshot,
    c: stats::Counter,
    k: nat,
)
    requires
        k <= v.len(),
    ensures
        stats::total(let_go(v, ended), gone, c, k) == stats::total(v, gone, c, k),
    decreases k,
{
    if k > 0 {
        lemma_let_go_totals(v, ended, gone, c, (k - 1) as nat);
    }
}

proof fn lemma_held_are(v: Seq<QueueEntry>, ended: Seq<u64>, k: nat, i: int)
    requires
        k <= v.len(),
        forall|j: int| 0 <= j < v.len() ==> (#[trigger] v[j]).held == !ended.contains(v[j].conn),
    ensures
        0 <= i < stats::held(v, k).len() ==> !ended.contains(stats::held(v, k)[i].conn),
        0 <= i < k && v[i].held ==> stats::held(v, k).contains(v[i]),
    decreases k,
{
    if k > 0 {
        let rest = stats::held(v, (k - 1) as nat);
        let all = stats::held(v, k);
        lemma_held_are(v, ended, (k - 1) as nat, i);
        assert(v[k - 1].held == !ended.contains(v[k - 1].conn));
        if 0 <= i < k && v[i].held {
            if i == k - 1 {
                assert(all[rest.len() as int] == v[i]);
            } else {
                let j = choose|j: int| 0 <= j < rest.len() && rest[j] == v[i];
                assert(all[j] == v[i]);
            }
        }
    }
}

/// Answering with a clear starts every count anew: the queues that are gone have
/// counted nothing, and each that is left is the queue it was, with nothing
/// counted. Answering without loses no count.
pub proof fn lemma_answered(
    before: ThreadStats,
    after: ThreadStats,
    ended: Seq<u64>,
    ring: RingStats,
    clear: bool,
    r: ThreadReport,
    c: stats::Counter,
    i: int,
)
    requires
        answers(before, after, ended, ring, clear, r),
        stats::sums_fit(let_go(before.queues@, ended), before.retired),
        0 <= i < after.queues@.len(),
    ensures
        !ended.contains(after.queues@[i].conn),
        !clear ==> stats::total(after.queues@, after.retired, c, after.queues@.len())
            == stats::total(before.queues@, before.retired, c, before.queues@.len()),
        clear ==> {
            let q = after.queues@[i].stats;
            let gone = after.retired;
            &&& q.read_cmds == 0 && q.write_cmds == 0 && q.flush_cmds == 0 && q.other_cmds == 0
            &&& q.read_bytes == 0 && q.write_bytes == 0 && q.errors == 0
            &&& gone.read_cmds == 0 && gone.write_cmds == 0 && gone.flush_cmds == 0
            &&& gone.other_cmds == 0 && gone.read_bytes == 0 && gone.write_bytes == 0
            &&& gone.errors == 0
            &&& exists|k: int|
                0 <= k < before.queues@.len() && (#[trigger] before.queues@[k]).conn
                    == after.queues@[i].conn && before.queues@[k].stats.qid == q.qid
                    && before.queues@[k].stats.cntlid == q.cntlid
        },
{
    let v = let_go(before.queues@, ended);
    let left = stats::held(v, v.len());
    stats::lemma_prune_keeps_totals(v, before.retired, c, v.len());
    lemma_let_go_totals(before.queues@, ended, before.retired, c, v.len());
    lemma_held_are(v, ended, v.len(), i);
    if clear {
        assert(stats::cleared(left[i], after.queues@[i]));
        crate::queue::lemma_snapshot(after.queues@[i].stats);
        lemma_held_from(v, v.len(), i);
        let k = choose|k: int| 0 <= k < v.len() && #[trigger] v[k] == left[i];
        assert(v[k].conn == before.queues@[k].conn && v[k].stats == before.queues@[k].stats);
    }
}

proof fn lemma_held_from(v: Seq<QueueEntry>, k: nat, i: int)
    requires
        k <= v.len(),
        0 <= i < stats::held(v, k).len(),
    ensures
        exists|j: int| 0 <= j < k && #[trigger] v[j] == stats::held(v, k)[i],
    decreases k,
{
    if k > 0 {
        let rest = stats::held(v, (k - 1) as nat);
        if i < rest.len() {
            lemma_held_from(v, (k - 1) as nat, i);
            let j = choose|j: int| 0 <= j < k - 1 && #[trigger] v[j] == rest[i];
            assert(v[j] == stats::held(v, k)[i]);
        } else {
            assert(v[k - 1] == stats::held(v, k)[i]);
        }
    }
}

} // verus!
