//! Shutdown: stop every target's IO, then hand back what the backends hold
//! outside the process.

use std::sync::Arc;

use vstd::prelude::*;

use crate::backend::Backend;
use crate::harness::cluster::Clusters;
use crate::nstable::Namespace;
use crate::subsystem::{PortConfig, Subsystem};
use crate::text::owned;

verus! {

/// How far a shutdown is.
#[derive(Debug, Clone, Copy, PartialEq, Eq, Structural)]
pub enum Phase {
    /// It has not begun.
    Serving,
    /// The targets were asked to stop.
    Stopping,
    /// What the backends held was handed back.
    Released,
}

/// What a process serves.
#[derive(Debug)]
pub struct Process<B> {
    /// How far its shutdown is.
    pub phase: Phase,
    /// The targets that can be asked to stop.
    pub targets: Vec<u64>,
    /// Every port it built, in order. Nothing here is dropped on the way out —
    /// the queue threads hold on to the same namespaces — so state a backend
    /// holds *outside* the process has to be handed back explicitly.
    pub ports: Vec<PortConfig<B>>,
    /// What it keeps up with.
    pub clusters: Clusters,
    /// The thread that refreshes it was started.
    pub refreshing: bool,
}

/// The backends of the first `k` namespaces.
pub open spec fn namespace_backends<B>(v: Seq<Namespace<B>>, k: nat) -> Seq<Arc<B>>
    decreases k,
{
    if k == 0 {
        seq![]
    } else {
        namespace_backends(v, (k - 1) as nat).push(v[k - 1].backend)
    }
}

/// The backends of the first `k` subsystems, in NSID order each.
pub open spec fn subsystem_backends<B>(v: Seq<Subsystem<B>>, k: nat) -> Seq<Arc<B>>
    decreases k,
{
    if k == 0 {
        seq![]
    } else {
        let listed = v[k - 1].namespaces.listed();
        subsystem_backends(v, (k - 1) as nat) + namespace_backends(listed, listed.len())
    }
}

/// The backends of the first `k` ports.
pub open spec fn port_backends<B>(v: Seq<PortConfig<B>>, k: nat) -> Seq<Arc<B>>
    decreases k,
{
    if k == 0 {
        seq![]
    } else {
        let subsystems = v[k - 1].subsystems@;
        port_backends(v, (k - 1) as nat) + subsystem_backends(subsystems, subsystems.len())
    }
}

fn add_backends<B>(out: &mut Vec<Arc<B>>, s: &Subsystem<B>)
    ensures
        final(out)@ == old(out)@ + namespace_backends(
            s.namespaces.listed(),
            s.namespaces.listed().len(),
        ),
{
    let entries = s.namespaces.entries();
    let n: usize = entries.len();
    assert(out@ =~= old(out)@ + namespace_backends(entries@, 0));
    for i in 0..n
        invariant
            n == entries@.len(),
            out@ == old(out)@ + namespace_backends(entries@, i as nat),
    {
        out.push(Arc::clone(&entries[i].backend));
        assert(out@ =~= old(out)@ + namespace_backends(entries@, (i + 1) as nat));
    }
}

impl<B: Backend> Process<B> {
    /// Nothing served yet.
    pub fn new() -> (r: Process<B>)
        ensures
            r.phase == Phase::Serving,
            r.targets@.len() == 0,
            r.ports@.len() == 0,
            r.clusters.paths@.len() == 0,
            r.clusters.ana@.len() == 0,
            r.clusters.acls@.len() == 0,
            !r.refreshing,
    {
        Process {
            phase: Phase::Serving,
            targets: Vec::new(),
            ports: Vec::new(),
            clusters: Clusters::new(),
            refreshing: false,
        }
    }

    /// Whether a shutdown has begun. The control plane reads it to tell "the
    /// cluster is faulty" from "we are on our way out".
    pub fn shutting_down(&self) -> (r: bool)
        ensures
            r == (self.phase != Phase::Serving),
    {
        self.phase != Phase::Serving
    }

    /// Every port the process is currently serving, in the order they were
    /// built. Empty once a shutdown has run.
    pub fn ports(&self) -> (r: &Vec<PortConfig<B>>)
        ensures
            *r == self.ports,
    {
        &self.ports
    }

    /// A port was built.
    pub fn built(&mut self, port: PortConfig<B>)
        ensures
            final(self).ports@ == old(self).ports@.push(port),
            *final(self) == (Process { ports: final(self).ports, ..*old(self) }),
    {
        self.ports.push(port);
    }

    /// A target came up that can be asked to stop.
    pub fn serving(&mut self, target: u64)
        ensures
            final(self).targets@ == old(self).targets@.push(target),
            *final(self) == (Process { targets: final(self).targets, ..*old(self) }),
    {
        self.targets.push(target);
    }

    /// Whether the refresh thread is to be started now: only once.
    pub fn start_cluster_refresh(&mut self) -> (r: bool)
        ensures
            r == !old(self).refreshing,
            *final(self) == (Process { refreshing: true, ..*old(self) }),
    {
        let was: bool = self.refreshing;
        self.refreshing = true;
        !was
    }

    /// Begin: returns the targets to ask to stop serving IO. They are asked
    /// before any is waited for, so they stop in parallel.
    pub fn quiesce_targets(&mut self) -> (r: Vec<u64>)
        ensures
            r@ == old(self).targets@,
            final(self).phase == Phase::Stopping,
            final(self).targets@.len() == 0,
            *final(self) == (Process {
                phase: Phase::Stopping,
                targets: final(self).targets,
                ..*old(self)
            }),
    {
        self.phase = Phase::Stopping;
        let mut r: Vec<u64> = Vec::new();
        std::mem::swap(&mut r, &mut self.targets);
        r
    }

    /// With the targets stopped, or given up on: stop refreshing the clusters,
    /// and return the backends that are now to give up what they hold outside
    /// the process — their VDI registration, which is also what advertised this
    /// target as a path to the volume.
    ///
    /// Doing it before the targets were asked to stop would let an in-flight
    /// write land on a VDI this process no longer holds the lock for.
    pub fn shutdown(&mut self) -> (r: Vec<Arc<B>>)
        requires
            old(self).phase == Phase::Stopping,
        ensures
            r@ == port_backends(old(self).ports@, old(self).ports@.len()),
            final(self).phase == Phase::Released,
            final(self).ports@.len() == 0,
            final(self).clusters.paths@.len() == 0,
            final(self).clusters.ana@.len() == 0,
            final(self).clusters.acls@.len() == 0,
            final(self).targets == old(self).targets,
            final(self).refreshing == old(self).refreshing,
    {
        self.phase = Phase::Released;
        self.clusters.stop_cluster_refresh();
        let mut ports: Vec<PortConfig<B>> = Vec::new();
        std::mem::swap(&mut ports, &mut self.ports);
        let mut out: Vec<Arc<B>> = Vec::new();
        let n: usize = ports.len();
        for i in 0..n
            invariant
                n == ports@.len(),
                out@ == port_backends(ports@, i as nat),
        {
            let subsystems = &ports[i].subsystems;
            let m: usize = subsystems.len();
            let ghost start = out@;
            assert(out@ =~= start + subsystem_backends(subsystems@, 0));
            for j in 0..m
                invariant
                    m == subsystems@.len(),
                    out@ == start + subsystem_backends(subsystems@, j as nat),
            {
                add_backends(&mut out, &subsystems[j]);
                assert(out@ =~= start + subsystem_backends(subsystems@, (j + 1) as nat));
            }
        }
        out
    }
}

/// A second shutdown finds nothing to do.
pub proof fn lemma_shutdown_once<B>(p: Process<B>)
    requires
        p.ports@.len() == 0,
    ensures
        port_backends(p.ports@, p.ports@.len()) == Seq::<Arc<B>>::empty(),
{
}

/// Every namespace of every port is released.
pub proof fn lemma_every_namespace_released<B>(
    ports: Seq<PortConfig<B>>,
    p: int,
    s: int,
    n: int,
)
    requires
        0 <= p < ports.len(),
        0 <= s < ports[p].subsystems@.len(),
        0 <= n < ports[p].subsystems@[s].namespaces.listed().len(),
    ensures
        port_backends(ports, ports.len()).contains(
            ports[p].subsystems@[s].namespaces.listed()[n].backend,
        ),
{
    let subsystems = ports[p].subsystems@;
    let listed = subsystems[s].namespaces.listed();
    let b = listed[n].backend;
    lemma_in_namespaces(listed, listed.len(), n);
    lemma_in_subsystems(subsystems, subsystems.len(), s, b);
    lemma_in_ports(ports, ports.len(), p, b);
}

proof fn lemma_in_namespaces<B>(v: Seq<Namespace<B>>, k: nat, n: int)
    requires
        0 <= n < k <= v.len(),
    ensures
        namespace_backends(v, k).contains(v[n].backend),
    decreases k,
{
    let rest = namespace_backends(v, (k - 1) as nat);
    let all = namespace_backends(v, k);
    if n == k - 1 {
        assert(all[rest.len() as int] == v[n].backend);
    } else {
        lemma_in_namespaces(v, (k - 1) as nat, n);
        let i = choose|i: int| 0 <= i < rest.len() && rest[i] == v[n].backend;
        assert(all[i] == v[n].backend);
    }
}

proof fn lemma_in_subsystems<B>(v: Seq<Subsystem<B>>, k: nat, s: int, b: Arc<B>)
    requires
        0 <= s < k <= v.len(),
        namespace_backends(v[s].namespaces.listed(), v[s].namespaces.listed().len()).contains(b),
    ensures
        subsystem_backends(v, k).contains(b),
    decreases k,
{
    let rest = subsystem_backends(v, (k - 1) as nat);
    let listed = v[k - 1].namespaces.listed();
    let last = namespace_backends(listed, listed.len());
    let all = rest + last;
    if s == k - 1 {
        let i = choose|i: int| 0 <= i < last.len() && last[i] == b;
        assert(all[rest.len() + i] == b);
    } else {
        lemma_in_subsystems(v, (k - 1) as nat, s, b);
        let i = choose|i: int| 0 <= i < rest.len() && rest[i] == b;
        assert(all[i] == b);
    }
}

proof fn lemma_in_ports<B>(v: Seq<PortConfig<B>>, k: nat, p: int, b: Arc<B>)
    requires
        0 <= p < k <= v.len(),
        subsystem_backends(v[p].subsystems@, v[p].subsystems@.len()).contains(b),
    ensures
        port_backends(v, k).contains(b),
    decreases k,
{
    let rest = port_backends(v, (k - 1) as nat);
    let subsystems = v[k - 1].subsystems@;
    let last = subsystem_backends(subsystems, subsystems.len());
    let all = rest + last;
    if p == k - 1 {
        let i = choose|i: int| 0 <= i < last.len() && last[i] == b;
        assert(all[rest.len() + i] == b);
    } else {
        lemma_in_ports(v, (k - 1) as nat, p, b);
        let i = choose|i: int| 0 <= i < rest.len() && rest[i] == b;
        assert(all[i] == b);
    }
}

/// Milliseconds left until `deadline`.
pub fn time_left(deadline: u64, now: u64) -> (r: u64)
    ensures
        r == (if now < deadline {
            (deadline - now) as u64
        } else {
            0
        }),
{
    if now < deadline {
        deadline - now
    } else {
        0
    }
}

/// What the signal `sig` that asked for a shutdown is called.
pub fn signal_name(sig: u8) -> (r: String)
    ensures
        r@ == (if sig == 2 {
            "SIGINT"@
        } else if sig == 15 {
            "SIGTERM"@
        } else {
            "signal"@
        }),
{
    if sig == 2 {
        owned("SIGINT")
    } else if sig == 15 {
        owned("SIGTERM")
    } else {
        owned("signal")
    }
}

/// Nothing is released but what a namespace of a port is on.
pub proof fn lemma_only_namespaces_released<B>(ports: Seq<PortConfig<B>>, b: Arc<B>)
    requires
        port_backends(ports, ports.len()).contains(b),
    ensures
        exists|p: int, s: int, n: int|
            #![trigger ports[p].subsystems@[s].namespaces.listed()[n]]
            0 <= p < ports.len() && 0 <= s < ports[p].subsystems@.len() && 0 <= n
                < ports[p].subsystems@[s].namespaces.listed().len()
                && ports[p].subsystems@[s].namespaces.listed()[n].backend == b,
{
    let p = lemma_of_port(ports, ports.len(), b);
    let subsystems = ports[p].subsystems@;
    let s = lemma_of_subsystem(subsystems, subsystems.len(), b);
    let listed = subsystems[s].namespaces.listed();
    let n = lemma_of_namespace(listed, listed.len(), b);
    assert(ports[p].subsystems@[s].namespaces.listed()[n].backend == b);
}

proof fn lemma_of_port<B>(v: Seq<PortConfig<B>>, k: nat, b: Arc<B>) -> (p: int)
    requires
        k <= v.len(),
        port_backends(v, k).contains(b),
    ensures
        0 <= p < k,
        subsystem_backends(v[p].subsystems@, v[p].subsystems@.len()).contains(b),
    decreases k,
{
    let rest = port_backends(v, (k - 1) as nat);
    let subsystems = v[k - 1].subsystems@;
    let last = subsystem_backends(subsystems, subsystems.len());
    let i = choose|i: int| 0 <= i < (rest + last).len() && (rest + last)[i] == b;
    if i < rest.len() {
        assert(rest[i] == b);
        lemma_of_port(v, (k - 1) as nat, b)
    } else {
        assert(last[i - rest.len()] == b);
        k - 1
    }
}

proof fn lemma_of_subsystem<B>(v: Seq<Subsystem<B>>, k: nat, b: Arc<B>) -> (s: int)
    requires
        k <= v.len(),
        subsystem_backends(v, k).contains(b),
    ensures
        0 <= s < k,
        namespace_backends(v[s].namespaces.listed(), v[s].namespaces.listed().len()).contains(b),
    decreases k,
{
    let rest = subsystem_backends(v, (k - 1) as nat);
    let listed = v[k - 1].namespaces.listed();
    let last = namespace_backends(listed, listed.len());
    let i = choose|i: int| 0 <= i < (rest + last).len() && (rest + last)[i] == b;
    if i < rest.len() {
        assert(rest[i] == b);
        lemma_of_subsystem(v, (k - 1) as nat, b)
    } else {
        assert(last[i - rest.len()] == b);
        k - 1
    }
}

proof fn lemma_of_namespace<B>(v: Seq<Namespace<B>>, k: nat, b: Arc<B>) -> (n: int)
    requires
        k <= v.len(),
        namespace_backends(v, k).contains(b),
    ensures
        0 <= n < k,
        v[n].backend == b,
    decreases k,
{
    let rest = namespace_backends(v, (k - 1) as nat);
    let all = namespace_backends(v, k);
    let i = choose|i: int| 0 <= i < all.len() && all[i] == b;
    if i < rest.len() {
        assert(rest[i] == b);
        lemma_of_namespace(v, (k - 1) as nat, b)
    } else {
        k - 1
    }
}

} // verus!
