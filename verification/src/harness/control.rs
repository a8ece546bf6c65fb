//! The control thread: accepting connections, bringing the queue-thread pool up
//! and reclaiming it, and stopping.

use vstd::prelude::*;

use crate::harness::cpus;
use crate::harness::cpus::io_thread_cpus;
use crate::harness::thread::CONN_DRAIN_BUDGET_MS;
use crate::permit::ConnPermit;
use crate::text;
use crate::text::{numbered, owned};
use crate::topology::CpuTopology;

verus! {

/// Maximum concurrent connections accepted. Bounds total preallocated queue
/// memory; a host that exceeds it is rejected at accept.
pub const MAX_CONNECTIONS: usize = 256;

/// Milliseconds the control thread waits for the whole pool to report its IO
/// stopped.
pub const POOL_QUIESCE_BUDGET_MS: u32 = 8_000;

/// Milliseconds a shutdown waits for all targets to stop serving IO.
pub const TARGET_QUIESCE_BUDGET_MS: u32 = 12_000;

/// Each layer gives up before the one above it, so no layer can hang on a
/// wedged one below.
pub proof fn lemma_budgets_nest()
    ensures
        CONN_DRAIN_BUDGET_MS < POOL_QUIESCE_BUDGET_MS < TARGET_QUIESCE_BUDGET_MS,
{
}

/// Nanoseconds in a millisecond.
pub const MILLISECOND: u128 = 1_000_000;

/// How often the pool is looked at with a grace period, in nanoseconds.
pub open spec fn poll_period(grace: Option<u128>) -> u128 {
    match grace {
        Some(g) => if g / 4 < 100 * MILLISECOND {
            (100 * MILLISECOND) as u128
        } else if g / 4 > 5_000 * MILLISECOND {
            (5_000 * MILLISECOND) as u128
        } else {
            (g / 4) as u128
        },
        None => (3_600_000 * MILLISECOND) as u128,
    }
}

/// Drives idle-teardown of the queue-thread pool: when it last went fully idle.
/// All times are nanoseconds.
#[derive(Debug, Clone, Copy, PartialEq, Eq, Structural)]
pub struct IdleTeardown {
    /// Tear down after this long fully idle; `None` disables teardown.
    pub grace: Option<u128>,
    /// Idle since then.
    pub idle_since: Option<u128>,
}

/// The time from `since` to `now`.
pub open spec fn elapsed(since: u128, now: u128) -> int {
    if since <= now {
        now - since
    } else {
        0
    }
}

/// Whether the pool has had no connection for the whole grace period.
pub open spec fn idled_out(i: IdleTeardown, up: bool, active: usize, now: u128) -> bool {
    &&& i.grace is Some
    &&& up
    &&& active == 0
    &&& elapsed(
        match i.idle_since {
            Some(s) => s,
            None => now,
        },
        now,
    ) >= i.grace->0
}

impl IdleTeardown {
    /// Not idle yet.
    pub fn new(grace: Option<u128>) -> (r: IdleTeardown)
        ensures
            r == (IdleTeardown { grace, idle_since: None }),
    {
        IdleTeardown { grace, idle_since: None }
    }

    /// How often to look: often enough to fire within roughly the grace period,
    /// and effectively never where teardown is off.
    pub fn period(&self) -> (r: u128)
        ensures
            r == poll_period(self.grace),
    {
        match self.grace {
            Some(g) => {
                let quarter: u128 = g / 4;
                if quarter < 100 * MILLISECOND {
                    100 * MILLISECOND
                } else if quarter > 5_000 * MILLISECOND {
                    5_000 * MILLISECOND
                } else {
                    quarter
                }
            },
            None => 3_600_000 * MILLISECOND,
        }
    }

    /// Connection activity: restart the idle clock.
    pub fn reset(&mut self)
        ensures
            *final(self) == (IdleTeardown { idle_since: None, ..*old(self) }),
    {
        self.idle_since = None;
    }

    /// Whether to tear the pool down now: it has had zero active connections
    /// for the whole grace period. Otherwise the idle timestamp is tracked or
    /// cleared.
    pub fn maybe_teardown(&mut self, up: bool, active: usize, now: u128) -> (r: bool)
        ensures
            r == idled_out(*old(self), up, active, now),
            *final(self) == (IdleTeardown {
                idle_since: if old(self).grace is None {
                    old(self).idle_since
                } else if r || !up || active != 0 {
                    None
                } else {
                    match old(self).idle_since {
                        Some(s) => Some(s),
                        None => Some(now),
                    }
                },
                ..*old(self)
            }),
    {
        let grace: u128 = match self.grace {
            Some(g) => g,
            None => {
                return false;
            },
        };
        if up && active == 0 {
            let since: u128 = match self.idle_since {
                Some(s) => s,
                None => now,
            };
            let gone: u128 = if since <= now {
                now - since
            } else {
                0
            };
            if gone >= grace {
                self.idle_since = None;
                true
            } else {
                self.idle_since = Some(since);
                false
            }
        } else {
            self.idle_since = None;
            false
        }
    }
}

/// Where a connection goes.
#[derive(Debug, Clone, Copy, PartialEq, Eq, Structural)]
pub enum Route {
    /// The admin thread.
    Admin,
    /// This IO thread.
    Io(usize),
    /// No IO thread is there to run it.
    Nowhere,
}

/// The thread that runs queue `qid`, of a pool with `io_threads` IO threads:
/// the admin queue on the admin thread, the others dealt out in turn.
pub fn route(qid: u16, io_threads: usize) -> (r: Route)
    ensures
        r == (if qid == 0 {
            Route::Admin
        } else if io_threads == 0 {
            Route::Nowhere
        } else {
            Route::Io(((qid - 1) as int % io_threads as int) as usize)
        }),
{
    if qid == 0 {
        Route::Admin
    } else if io_threads == 0 {
        Route::Nowhere
    } else {
        Route::Io((qid as usize - 1) % io_threads)
    }
}

/// The queues of one controller are spread over the threads: with no more IO
/// queues than threads no two share one.
pub proof fn lemma_queues_spread(a: u16, b: u16, io_threads: usize)
    requires
        1 <= a < b <= io_threads,
    ensures
        (a - 1) as int % io_threads as int != (b - 1) as int % io_threads as int,
{
    vstd::arithmetic::div_mod::lemma_small_mod((a - 1) as nat, io_threads as nat);
    vstd::arithmetic::div_mod::lemma_small_mod((b - 1) as nat, io_threads as nat);
}

/// What becomes of an accepted connection.
#[derive(Debug)]
pub enum Verdict {
    /// Serve it.
    Admitted(ConnPermit),
    /// Too many are being served.
    Full,
    /// There is no pool to serve it.
    NoPool,
}

/// What the control thread keeps.
#[derive(Debug)]
pub struct Control {
    /// The pool's idle clock.
    pub idle: IdleTeardown,
    /// The pool is up.
    pub up: bool,
    /// Connections being served, or being set up.
    pub active: usize,
    /// It was asked to stop, and accepts nothing any more.
    pub stopped: bool,
}

impl Control {
    /// Never more connections than allowed, and no pool once stopped.
    pub open spec fn wf(&self) -> bool {
        &&& self.active <= MAX_CONNECTIONS
        &&& self.stopped ==> !self.up
    }

    /// A target with no pool yet: it is spawned lazily on the first connection.
    pub fn new(grace: Option<u128>) -> (r: Control)
        ensures
            r.wf(),
            r == (Control {
                idle: IdleTeardown { grace, idle_since: None },
                up: false,
                active: 0,
                stopped: false,
            }),
    {
        Control { idle: IdleTeardown::new(grace), up: false, active: 0, stopped: false }
    }

    /// A connection was accepted, which is activity, or accepting failed, which
    /// is not and must not defer teardown. Returns whether the pool is to be
    /// brought up.
    pub fn accepted(&mut self, ok: bool) -> (r: bool)
        requires
            old(self).wf(),
        ensures
            final(self).wf(),
            r == (ok && !old(self).up),
            *final(self) == (Control {
                idle: if ok {
                    IdleTeardown { idle_since: None, ..old(self).idle }
                } else {
                    old(self).idle
                },
                ..*old(self)
            }),
    {
        if !ok {
            return false;
        }
        self.idle.reset();
        !self.up
    }

    /// The pool was spawned, or could not be.
    pub fn pool_spawned(&mut self, ok: bool)
        requires
            old(self).wf(),
            !old(self).stopped,
        ensures
            final(self).wf(),
            *final(self) == (Control { up: old(self).up || ok, ..*old(self) }),
    {
        self.up = self.up || ok;
    }

    /// Account for an accepted connection, or turn it away.
    pub fn take_place(&mut self) -> (r: Verdict)
        requires
            old(self).wf(),
        ensures
            final(self).wf(),
            if !old(self).up {
                r is NoPool && *final(self) == *old(self)
            } else if old(self).active >= MAX_CONNECTIONS {
                r is Full && *final(self) == *old(self)
            } else {
                &&& r matches Verdict::Admitted(p) && p.admitted == old(self).active + 1
                &&& *final(self) == (Control {
                    active: (old(self).active + 1) as usize,
                    ..*old(self)
                })
            },
    {
        if !self.up {
            return Verdict::NoPool;
        }
        let count: usize = self.active + 1;
        if count > MAX_CONNECTIONS {
            return Verdict::Full;
        }
        self.active = count;
        Verdict::Admitted(ConnPermit::new(count))
    }

    /// A connection ended, and gives its place back.
    pub fn closed(&mut self, permit: ConnPermit)
        requires
            old(self).wf(),
            old(self).active > 0,
        ensures
            final(self).wf(),
            *final(self) == (Control { active: (old(self).active - 1) as usize, ..*old(self) }),
    {
        permit.release(&mut self.active);
    }

    /// Time for a look at the pool. Returns whether it is to be torn down; it is
    /// down from here on.
    pub fn tick(&mut self, now: u128) -> (r: bool)
        requires
            old(self).wf(),
        ensures
            final(self).wf(),
            r == idled_out(old(self).idle, old(self).up, old(self).active, now),
            final(self).up == (old(self).up && !r),
            final(self).active == old(self).active,
            final(self).stopped == old(self).stopped,
            final(self).idle == (IdleTeardown {
                idle_since: if old(self).idle.grace is None {
                    old(self).idle.idle_since
                } else if r || !old(self).up || old(self).active != 0 {
                    None
                } else {
                    match old(self).idle.idle_since {
                        Some(s) => Some(s),
                        None => Some(now),
                    }
                },
                ..old(self).idle
            }),
    {
        let down: bool = self.idle.maybe_teardown(self.up, self.active, now);
        if down {
            self.up = false;
        }
        down
    }

    /// Stop serving: nothing new is accepted from here on. Returns whether there
    /// is a pool to wind down first.
    pub fn quiesce(&mut self) -> (r: bool)
        requires
            old(self).wf(),
        ensures
            final(self).wf(),
            r == old(self).up,
            *final(self) == (Control { up: false, stopped: true, ..*old(self) }),
    {
        let was: bool = self.up;
        self.up = false;
        self.stopped = true;
        was
    }
}

/// The pool is never torn down under a connection: only with none being served
/// or set up.
pub proof fn lemma_teardown_only_idle(i: IdleTeardown, up: bool, active: usize, now: u128)
    requires
        idled_out(i, up, active, now),
    ensures
        active == 0,
        up,
        i.grace is Some,
{
}

/// A thread of the pool.
#[derive(Debug)]
pub struct PoolThread {
    /// Its name.
    pub name: String,
    /// The CPU it is pinned to.
    pub cpu: Option<usize>,
}

/// The name of IO thread `i`.
pub open spec fn io_name(i: nat) -> Seq<char> {
    "ioutgt-io"@ + text::decimal(i)
}

/// The threads of a pool: the admin thread, pinned nowhere, then one per IO
/// thread, pinned as given.
pub fn build_pool(io_cpus: &[Option<usize>]) -> (r: Vec<PoolThread>)
    ensures
        r@.len() == io_cpus@.len() + 1,
        r@[0].name@ == "ioutgt-admin"@,
        r@[0].cpu is None,
        forall|i: int|
            0 <= i < io_cpus@.len() ==> (#[trigger] r@[i + 1]).name@ == io_name(i as nat)
                && r@[i + 1].cpu == io_cpus@[i],
{
    let mut r: Vec<PoolThread> = Vec::new();
    r.push(PoolThread { name: owned("ioutgt-admin"), cpu: None });
    let n: usize = io_cpus.len();
    for i in 0..n
        invariant
            n == io_cpus@.len(),
            r@.len() == i + 1,
            r@[0].name@ == "ioutgt-admin"@,
            r@[0].cpu is None,
            forall|j: int|
                0 <= j < i ==> (#[trigger] r@[j + 1]).name@ == io_name(j as nat) && r@[j + 1].cpu
                    == io_cpus@[j],
    {
        let name: String = numbered("ioutgt-io", i as u64, "");
        proof {
            reveal_strlit("");
            assert(name@ =~= io_name(i as nat));
        }
        r.push(PoolThread { name, cpu: io_cpus[i] });
    }
    r
}

/// The CPU each IO thread is pinned to and the group it is reported on: by
/// locality where threads are pinned, nowhere and `*` where they are not.
pub fn thread_cpus(pin_threads: bool, io_threads: usize, topo: Option<&CpuTopology>) -> (r: (
    Vec<Option<usize>>,
    Vec<String>,
))
    requires
        topo matches Some(t) ==> t.possible@.len() <= usize::MAX,
    ensures
        r.0@.len() == io_threads,
        r.1@.len() == io_threads,
        forall|i: int|
            0 <= i < io_threads ==> cpus::placed_on(
                #[trigger] r.0@[i],
                r.1@[i]@,
                if pin_threads && topo is Some {
                    cpus::online_of(
                        cpus::thread_groups(io_threads as nat, *topo->0),
                        topo->0.online@,
                        i,
                    )
                } else {
                    Set::empty()
                },
            ),
{
    if pin_threads {
        io_thread_cpus(io_threads, topo)
    } else {
        io_thread_cpus(io_threads, None)
    }
}

/// With a grace period the pool is looked at every tenth of a second at most and
/// every five seconds at least, and in between four times in that period; with
/// none, once in an hour.
pub proof fn lemma_poll_period(grace: Option<u128>)
    ensures
        grace matches Some(g) ==> {
            let p = poll_period(grace);
            &&& 100_000_000 <= p <= 5_000_000_000
            &&& g >= 400_000_000 ==> 4 * p <= g
            &&& g <= 20_000_000_000 ==> g < 4 * p + 4
        },
        grace is None ==> poll_period(grace) == 3_600_000_000_000,
{
}

/// The pool goes down when it has been idle for the grace period, and not a
/// moment before: a clock that was not running yet, or that went back, has run
/// for no time.
pub proof fn lemma_idled_out(i: IdleTeardown, up: bool, active: usize, now: u128)
    ensures
        idled_out(i, up, active, now) <==> up && active == 0 && (i.grace matches Some(g) && (g == 0
            || (i.idle_since matches Some(s) && s + g <= now))),
{
}

/// No two IO threads share a name.
pub proof fn lemma_io_names(i: nat, j: nat)
    ensures
        io_name(i) == io_name(j) <==> i == j,
        io_name(i) != "ioutgt-admin"@,
{
    reveal_strlit("ioutgt-io");
    reveal_strlit("ioutgt-admin");
    text::lemma_decimal(i);
    text::lemma_decimal(j);
    let a = io_name(i);
    let b = io_name(j);
    assert(a.skip(9) =~= text::decimal(i));
    assert(b.skip(9) =~= text::decimal(j));
    assert(a[7] == 'i');
}

} // verus!
