//! Building the served port out of the configured subsystems.
//!
//! Opening the namespaces is the caller's; what each of them turned out to be
//! comes in as [`Opened`]. On a Sheepdog cluster opening is also what
//! registers this target as a holder of its volumes, so the cluster namespaces
//! to keep track of come out of here as well.

use std::sync::Arc;

use vstd::prelude::*;

use crate::addr;
use crate::addr::SocketAddr;
use crate::backend::Backend;
use crate::config::{NamespaceConfig, SheepdogAcl, SubsystemConfig};
use crate::nstable;
use crate::nstable::{AnaBook, AnaState, Namespace, NsMap, ANA_GRPID_PLACEHOLDER};
use crate::subsystem;
use crate::subsystem::{HostAcl, PortConfig, Subsystem, TransportType};
use crate::text;
use crate::text::{chars_of, less, owned, owned_texts, same_text, say_number};
use crate::uuid;
use crate::uuid::namespace_uuid;

verus! {

/// The cluster volume behind a namespace.
#[derive(Debug, Clone, Copy, PartialEq, Eq)]
pub struct ClusterVdi {
    /// The cluster it lives on.
    pub cluster: SocketAddr,
    /// Its vid.
    pub vid: u32,
    /// The address this target registered as its holder, if it did.
    pub owner: Option<SocketAddr>,
    /// Which of the opened volumes this is: every open makes another.
    pub volume: u64,
}

/// A namespace on a cluster volume, as it is kept track of, whether or not its
/// subsystem's table still holds it.
#[derive(Debug, Clone, Copy, PartialEq, Eq, Structural)]
pub struct ClusterNs {
    /// Namespace id.
    pub nsid: u32,
    /// The cell of its subsystem's ANA states that is its own.
    pub cell: usize,
    /// The opened volume it is on.
    pub volume: u64,
    /// The vid of that volume.
    pub vid: u32,
}

/// Namespace `nsid` on `vdi`, whose ANA state is in `cell`.
pub open spec fn cluster_ns(nsid: u32, cell: usize, vdi: ClusterVdi) -> ClusterNs {
    ClusterNs { nsid, cell, volume: vdi.volume, vid: vdi.vid }
}

/// An opened namespace backend.
#[derive(Debug)]
pub struct Opened<B> {
    /// The backend.
    pub backend: Arc<B>,
    /// The storage's own identity for it (a VDI's inode uuid), if it has one.
    pub uuid: Option<[u8; 16]>,
    /// The cluster volume behind it, if it is one.
    pub vdi: Option<ClusterVdi>,
}

/// One subsystem's cluster namespaces on one cluster: what ANA reporting tracks.
/// Registration plays no part — a volume opened
/// with locking off still has a home node.
#[derive(Debug)]
pub struct AnaSpec {
    /// The cluster gateway those namespaces are served through.
    pub cluster: SocketAddr,
    /// The namespaces.
    pub namespaces: Vec<ClusterNs>,
}

/// A subsystem that is a cluster ACL's export, to be kept up with it.
#[derive(Debug, Clone, Copy)]
pub struct AclSpec {
    /// The ACL object.
    pub acl: SheepdogAcl,
    /// This target's own fabric address.
    pub fabric: SocketAddr,
    /// Whether connections receive into provided-buffer rings.
    pub ring_enabled: bool,
    /// Transport of the port.
    pub trtype: TransportType,
}

/// What building a subsystem gives: the subsystem, and what opening its cluster
/// namespaces revealed along the way.
#[derive(Debug)]
pub struct BuiltSubsystem<B> {
    /// The subsystem.
    pub subsystem: Subsystem<B>,
    /// The namespaces that registered this target as a holder of their volume.
    pub registered: Vec<(ClusterNs, ClusterVdi)>,
    /// The cluster namespaces whose ANA state wants tracking, by cluster.
    pub ana: Vec<AnaSpec>,
    /// The ACL it is the export of.
    pub acl: Option<AclSpec>,
}

/// The identity of a namespace: the configured one, then the storage's own;
/// otherwise derived from (NQN, nsid).
pub open spec fn identity<B>(nqn: Seq<char>, c: NamespaceConfig, o: Opened<B>) -> Seq<u8> {
    match c.uuid {
        Some(u) => u@,
        None => match o.uuid {
            Some(u) => u@,
            None => uuid::derived(vstd::utf8::encode_utf8(nqn), c.nsid),
        },
    }
}

/// Whether `ns` is the namespace of `c` on `o`, which was the one at `i`.
pub open spec fn is_ns<B>(
    ns: Namespace<B>,
    nqn: Seq<char>,
    c: NamespaceConfig,
    o: Opened<B>,
    i: int,
) -> bool {
    &&& ns.nsid == c.nsid
    &&& ns.backend == o.backend
    &&& ns.uuid@ == identity(nqn, c, o)
    &&& ns.cell == i
}

/// The ANA states of `n` namespaces none of which was placed yet.
pub open spec fn unplaced(n: nat) -> Seq<AnaState> {
    Seq::new(n, |i: int| AnaState { grpid: ANA_GRPID_PLACEHOLDER, optimized: true })
}

/// The last of the first `k` namespaces with id `nsid`.
pub open spec fn last_with(v: Seq<NamespaceConfig>, nsid: u32, k: nat) -> Option<int>
    decreases k,
{
    if k == 0 {
        None
    } else if v[k - 1].nsid == nsid {
        Some(k - 1)
    } else {
        last_with(v, nsid, (k - 1) as nat)
    }
}

/// Whether `m` holds the first `k` namespaces, the last of those that share an
/// id.
pub open spec fn holds_namespaces<B>(
    m: Map<u32, Namespace<B>>,
    nqn: Seq<char>,
    v: Seq<NamespaceConfig>,
    o: Seq<Opened<B>>,
    k: nat,
) -> bool {
    forall|n: u32|
        #![trigger m.dom().contains(n)]
        match last_with(v, n, k) {
            Some(i) => m.dom().contains(n) && is_ns(m[n], nqn, v[i], o[i], i),
            None => !m.dom().contains(n),
        }
}

/// The registered volumes of the first `k` namespaces, in order.
pub open spec fn registered_of<B>(v: Seq<NamespaceConfig>, o: Seq<Opened<B>>, k: nat) -> Seq<
    (ClusterNs, ClusterVdi),
>
    decreases k,
{
    if k == 0 {
        seq![]
    } else {
        let rest = registered_of(v, o, (k - 1) as nat);
        match o[k - 1].vdi {
            Some(d) => if d.owner is Some {
                rest.push((cluster_ns(v[k - 1].nsid, (k - 1) as usize, d), d))
            } else {
                rest
            },
            None => rest,
        }
    }
}

/// The volumes on cluster `c` of the first `k` namespaces, in order.
pub open spec fn on_cluster<B>(
    v: Seq<NamespaceConfig>,
    o: Seq<Opened<B>>,
    c: addr::Endpoint,
    k: nat,
) -> Seq<ClusterNs>
    decreases k,
{
    if k == 0 {
        seq![]
    } else {
        let rest = on_cluster(v, o, c, (k - 1) as nat);
        match o[k - 1].vdi {
            Some(d) => if d.cluster@ == c {
                rest.push(cluster_ns(v[k - 1].nsid, (k - 1) as usize, d))
            } else {
                rest
            },
            None => rest,
        }
    }
}

/// Whether `a` groups the volumes of the first `k` namespaces by cluster, the
/// clusters in order.
pub open spec fn groups<B>(
    a: Seq<AnaSpec>,
    v: Seq<NamespaceConfig>,
    o: Seq<Opened<B>>,
    k: nat,
) -> bool {
    &&& forall|i: int, j: int|
        0 <= i < j < a.len() ==> addr::before(
            (#[trigger] a[i]).cluster@,
            (#[trigger] a[j]).cluster@,
        )
    &&& forall|i: int|
        0 <= i < a.len() ==> (#[trigger] a[i]).namespaces@ == on_cluster(v, o, a[i].cluster@, k)
            && a[i].namespaces@.len() > 0
    &&& forall|n: int|
        0 <= n < k && (#[trigger] o[n]).vdi is Some ==> exists|i: int|
            0 <= i < a.len() && (#[trigger] a[i]).cluster@ == o[n].vdi->0.cluster@
}

/// Whether `after` is `before` with a namespace filed under `cluster` at `at`: in
/// the group there is, or in one of its own.
pub open spec fn filed(
    before: Seq<AnaSpec>,
    after: Seq<AnaSpec>,
    cluster: addr::Endpoint,
    ns: ClusterNs,
    at: int,
) -> bool {
    &&& 0 <= at < after.len()
    &&& after[at].cluster@ == cluster
    &&& if after.len() == before.len() {
        &&& before[at].cluster@ == cluster
        &&& after[at].namespaces@ == before[at].namespaces@.push(ns)
        &&& forall|i: int| 0 <= i < before.len() && i != at ==> #[trigger] after[i] == before[i]
    } else {
        &&& after.len() == before.len() + 1
        &&& after[at].namespaces@ == seq![ns]
        &&& after == before.insert(at, after[at])
        &&& forall|i: int| 0 <= i < before.len() ==> (#[trigger] before[i]).cluster@ != cluster
    }
}

/// File a namespace under the cluster of its volume.
fn file_volume(a: &mut Vec<AnaSpec>, cluster: SocketAddr, ns: ClusterNs)
    requires
        forall|i: int, j: int|
            0 <= i < j < old(a)@.len() ==> addr::before(
                (#[trigger] old(a)@[i]).cluster@,
                (#[trigger] old(a)@[j]).cluster@,
            ),
    ensures
        forall|i: int, j: int|
            0 <= i < j < final(a)@.len() ==> addr::before(
                (#[trigger] final(a)@[i]).cluster@,
                (#[trigger] final(a)@[j]).cluster@,
            ),
        exists|at: int| #[trigger] filed(old(a)@, final(a)@, cluster@, ns, at),
{
    let n: usize = a.len();
    let mut at: usize = 0;
    while at < n && a[at].cluster.precedes(&cluster)
        invariant
            at <= n == a@.len(),
            a@ == old(a)@,
            forall|i: int| 0 <= i < at ==> addr::before((#[trigger] a@[i]).cluster@, cluster@),
        decreases n - at,
    {
        at = at + 1;
    }
    if at < n && a[at].cluster.same(&cluster) {
        let ghost before = a@;
        a[at].namespaces.push(ns);
        assert(a@[at as int].namespaces@ == before[at as int].namespaces@.push(ns));
        proof {
            assert forall|i: int, j: int| 0 <= i < j < a@.len() implies addr::before(
                (#[trigger] a@[i]).cluster@,
                (#[trigger] a@[j]).cluster@,
            ) by {
                assert(addr::before(before[i].cluster@, before[j].cluster@));
            }
        }
        assert(filed(before, a@, cluster@, ns, at as int));
        return ;
    }
    let mut list: Vec<ClusterNs> = Vec::new();
    list.push(ns);
    assert(list@ =~= seq![ns]);
    let ghost before = a@;
    proof {
        assert forall|i: int| at <= i < n implies addr::before(
            cluster@,
            (#[trigger] a@[i]).cluster@,
        ) by {
            addr::lemma_endpoint_order(a@[at as int].cluster@, cluster@, a@[i].cluster@);
            addr::lemma_endpoint_order(cluster@, a@[at as int].cluster@, a@[i].cluster@);
            if i > at {
                assert(addr::before(a@[at as int].cluster@, a@[i].cluster@));
            }
        }
        assert forall|i: int| 0 <= i < n implies (#[trigger] a@[i]).cluster@ != cluster@ by {
            addr::lemma_endpoint_order(a@[i].cluster@, cluster@, cluster@);
        }
    }
    a.insert(at, AnaSpec { cluster, namespaces: list });
    proof {
        assert forall|i: int, j: int| 0 <= i < j < a@.len() implies addr::before(
            (#[trigger] a@[i]).cluster@,
            (#[trigger] a@[j]).cluster@,
        ) by {
            let x = if i < at {
                i
            } else {
                i - 1
            };
            let y = if j < at {
                j
            } else {
                j - 1
            };
            if i == at {
                assert(addr::before(cluster@, before[y].cluster@));
            } else if j == at {
                assert(addr::before(before[x].cluster@, cluster@));
            } else {
                assert(addr::before(before[x].cluster@, before[y].cluster@));
            }
        }
        assert(a@ =~= before.insert(at as int, a@[at as int]));
        assert(filed(before, a@, cluster@, ns, at as int));
    }
}

/// What filing one more volume does to a grouping.
proof fn lemma_filed<B>(
    before: Seq<AnaSpec>,
    after: Seq<AnaSpec>,
    v: Seq<NamespaceConfig>,
    o: Seq<Opened<B>>,
    k: nat,
    at: int,
)
    requires
        groups(before, v, o, k),
        k < v.len(),
        v.len() == o.len(),
        o[k as int].vdi is Some,
        forall|i: int, j: int|
            0 <= i < j < after.len() ==> addr::before(
                (#[trigger] after[i]).cluster@,
                (#[trigger] after[j]).cluster@,
            ),
        filed(
            before,
            after,
            o[k as int].vdi->0.cluster@,
            cluster_ns(v[k as int].nsid, k as usize, o[k as int].vdi->0),
            at,
        ),
    ensures
        groups(after, v, o, k + 1),
{
    let c = after[at].cluster@;
    assert forall|i: int| 0 <= i < after.len() implies (#[trigger] after[i]).namespaces@
        == on_cluster(v, o, after[i].cluster@, k + 1) && after[i].namespaces@.len() > 0 by {
        if i != at {
            let x = if after.len() == before.len() || i < at {
                i
            } else {
                i - 1
            };
            assert(after[i] == before[x]);
            if after.len() == before.len() {
                if i < at {
                    addr::lemma_endpoint_order(before[i].cluster@, before[at].cluster@, c);
                } else {
                    addr::lemma_endpoint_order(before[at].cluster@, before[i].cluster@, c);
                }
            }
            assert(before[x].cluster@ != c);
        } else if after.len() != before.len() {
            assert(on_cluster(v, o, c, k) == Seq::<ClusterNs>::empty()) by {
                lemma_unfiled(before, v, o, c, k, k);
            }
        }
    }
    assert forall|n: int| 0 <= n < k + 1 && (#[trigger] o[n]).vdi is Some implies exists|i: int|
        0 <= i < after.len() && (#[trigger] after[i]).cluster@ == o[n].vdi->0.cluster@ by {
        if n < k {
            let i = choose|i: int|
                0 <= i < before.len() && (#[trigger] before[i]).cluster@ == o[n].vdi->0.cluster@;
            if after.len() == before.len() {
                assert(after[i].cluster@ == before[i].cluster@);
            } else if i < at {
                assert(after[i] == before[i]);
            } else {
                assert(after[i + 1] == before[i]);
            }
        } else {
            assert(after[at].cluster@ == o[n].vdi->0.cluster@);
        }
    }
}

/// A cluster no group is of has no volume.
proof fn lemma_unfiled<B>(
    a: Seq<AnaSpec>,
    v: Seq<NamespaceConfig>,
    o: Seq<Opened<B>>,
    c: addr::Endpoint,
    k: nat,
    n: nat,
)
    requires
        groups(a, v, o, n),
        k <= n,
        forall|i: int| 0 <= i < a.len() ==> (#[trigger] a[i]).cluster@ != c,
    ensures
        on_cluster(v, o, c, k) == Seq::<ClusterNs>::empty(),
    decreases k,
{
    if k > 0 {
        lemma_unfiled(a, v, o, c, (k - 1) as nat, n);
        let q = o[k - 1];
    }
}

/// A namespace on no cluster volume joins no group.
proof fn lemma_none_filed<B>(
    a: Seq<AnaSpec>,
    v: Seq<NamespaceConfig>,
    o: Seq<Opened<B>>,
    k: nat,
)
    requires
        groups(a, v, o, k),
        k < o.len(),
        o[k as int].vdi is None,
    ensures
        groups(a, v, o, k + 1),
{
    assert forall|x: int| 0 <= x < a.len() implies (#[trigger] a[x]).namespaces@ == on_cluster(
        v,
        o,
        a[x].cluster@,
        k + 1,
    ) by {
        assert(a[x].namespaces@ == on_cluster(v, o, a[x].cluster@, k));
    }
}

/// A table that holds the first `k` namespaces holds one more with the next.
proof fn lemma_one_more<B>(
    m: Map<u32, Namespace<B>>,
    ns: Namespace<B>,
    nqn: Seq<char>,
    v: Seq<NamespaceConfig>,
    o: Seq<Opened<B>>,
    k: nat,
)
    requires
        holds_namespaces(m, nqn, v, o, k),
        is_ns(ns, nqn, v[k as int], o[k as int], k as int),
    ensures
        holds_namespaces(m.insert(ns.nsid, ns), nqn, v, o, k + 1),
{
    let after = m.insert(ns.nsid, ns);
    assert forall|n: u32| #![trigger after.dom().contains(n)]
        match last_with(v, n, k + 1) {
            Some(i) => after.dom().contains(n) && is_ns(after[n], nqn, v[i], o[i], i),
            None => !after.dom().contains(n),
        } by {
        let was = m.dom().contains(n);
    }
}

/// What opening the namespaces of a subsystem gives.
struct Namespaces<B> {
    table: NsMap<B>,
    states: AnaBook,
    registered: Vec<(ClusterNs, ClusterVdi)>,
    ana: Vec<AnaSpec>,
}

fn gather<B>(nqn: &str, configs: &Vec<NamespaceConfig>, opened: &Vec<Opened<B>>) -> (r: Namespaces<
    B,
>)
    requires
        configs@.len() == opened@.len(),
    ensures
        r.table.wf(),
        nstable::celled(r.table@, configs@.len()),
        holds_namespaces(r.table@, nqn@, configs@, opened@, configs@.len()),
        r.states@ == unplaced(configs@.len()),
        r.registered@ == registered_of(configs@, opened@, configs@.len()),
        groups(r.ana@, configs@, opened@, configs@.len()),
{
    let mut table: NsMap<B> = NsMap::new();
    let mut states = AnaBook::new();
    let mut registered: Vec<(ClusterNs, ClusterVdi)> = Vec::new();
    let mut ana: Vec<AnaSpec> = Vec::new();
    let n: usize = configs.len();
    assert(states@ =~= unplaced(0));
    for i in 0..n
        invariant
            n == configs@.len(),
            configs@.len() == opened@.len(),
            table.wf(),
            nstable::celled(table@, i as nat),
            states@ == unplaced(i as nat),
            holds_namespaces(table@, nqn@, configs@, opened@, i as nat),
            registered@ == registered_of(configs@, opened@, i as nat),
            groups(ana@, configs@, opened@, i as nat),
    {
        let c: &NamespaceConfig = &configs[i];
        let o: &Opened<B> = &opened[i];
        let identity: [u8; 16] = match c.uuid {
            Some(u) => u,
            None => match o.uuid {
                Some(u) => u,
                None => namespace_uuid(nqn, c.nsid),
            },
        };
        let ns = Namespace::new(c.nsid, Arc::clone(&o.backend), identity, &mut states);
        assert(states@ =~= unplaced(i as nat + 1));
        proof {
            lemma_one_more(table@, ns, nqn@, configs@, opened@, i as nat);
            nstable::lemma_celled_insert(table@, ns, i as nat + 1);
        }
        let cell: usize = ns.cell;
        table.insert(ns);
        match o.vdi {
            Some(d) => {
                let on = ClusterNs { nsid: c.nsid, cell, volume: d.volume, vid: d.vid };
                if d.owner.is_some() {
                    registered.push((on, d));
                }
                let ghost was = ana@;
                file_volume(&mut ana, d.cluster, on);
                proof {
                    let at = choose|at: int| #[trigger]
                        filed(was, ana@, d.cluster@, on, at);
                    lemma_filed(was, ana@, configs@, opened@, i as nat, at);
                }
            },
            None => {
                proof {
                    lemma_none_filed(ana@, configs@, opened@, i as nat);
                }
            },
        }
    }
    Namespaces { table, states, registered, ana }
}

/// Whether `b` is the subsystem of `spec` on what its namespaces opened as.
pub open spec fn built<B>(
    b: BuiltSubsystem<B>,
    spec: SubsystemConfig,
    opened: Seq<Opened<B>>,
    fabric: SocketAddr,
    trtype: TransportType,
    ring_enabled: bool,
) -> bool {
    let n = spec.namespaces@.len();
    let s = b.subsystem;
    let ana = b.ana@.len() > 0 || spec.sheepdog_acl is Some;
    &&& s.wf()
    &&& s.nqn@ == spec.nqn@
    &&& s.serial@ == spec.serial@
    &&& s.model@ == spec.model@
    &&& s.hosts@.any == spec.allow_any_host
    &&& s.hosts@.hosts == text::texts(spec.allowed_hosts@)
    &&& s.mnan == spec.mnan
    &&& s.ana == ana
    &&& s.ana_zones@ == (if ana {
        seq![ANA_GRPID_PLACEHOLDER]
    } else {
        Seq::<u32>::empty()
    })
    &&& s.ana_chgcnt == 1
    &&& s.ana_states@ == unplaced(n)
    &&& s.generation == 1
    &&& s.ports@.len() == 0
    &&& holds_namespaces(s.namespaces@, spec.nqn@, spec.namespaces@, opened, n)
    &&& b.registered@ == registered_of(spec.namespaces@, opened, n)
    &&& groups(b.ana@, spec.namespaces@, opened, n)
    &&& match spec.sheepdog_acl {
        Some(acl) => {
            &&& b.acl == Some(AclSpec { acl, fabric, ring_enabled, trtype })
            &&& s.disc_genctr == (if 1 < acl.epoch {
                acl.epoch
            } else {
                1
            })
        },
        None => b.acl is None && s.disc_genctr == 1,
    }
}

/// Build one subsystem of the port, each of its namespaces on the backend it
/// was opened as.
///
/// A namespace's configured identity wins, then the storage's own; otherwise it
/// is derived from (NQN, nsid). Cluster storage reports ANA: the paths to a
/// volume are unequal, and which one this is depends on where its objects live.
/// A subsystem that *is* a cluster ACL's export reports it even with no cluster
/// namespace open right now — one hot-added later needs it already on, since
/// nothing can flip it afterward — and starts at the discovery generation the
/// ACL object states.
pub fn build_subsystem<B: Backend>(
    spec: &SubsystemConfig,
    opened: &Vec<Opened<B>>,
    fabric: SocketAddr,
    trtype: TransportType,
    ring_enabled: bool,
) -> (r: BuiltSubsystem<B>)
    requires
        opened@.len() == spec.namespaces@.len(),
    ensures
        built(r, *spec, opened@, fabric, trtype, ring_enabled),
{
    let g = gather(spec.nqn.as_str(), &spec.namespaces, opened);
    let hosts = HostAcl {
        allow_any_host: spec.allow_any_host,
        hosts: owned_texts(&spec.allowed_hosts),
    };
    let ana: bool = g.ana.len() > 0 || spec.sheepdog_acl.is_some();
    let mut subsystem = Subsystem::new(
        owned(spec.nqn.as_str()),
        owned(spec.serial.as_str()),
        owned(spec.model.as_str()),
        hosts,
        g.table,
        g.states,
    ).with_mnan(spec.mnan).with_ana(ana);
    let acl: Option<AclSpec> = match spec.sheepdog_acl {
        Some(acl) => {
            let _ = subsystem.observe_disc_genctr(acl.epoch);
            Some(AclSpec { acl, fabric, ring_enabled, trtype })
        },
        None => None,
    };
    BuiltSubsystem { subsystem, registered: g.registered, ana: g.ana, acl }
}

/// Every namespace of a subsystem just built that ANA reporting tracks has an
/// ANA state of its own there, whether or not the table holds it.
pub proof fn lemma_tracked_have_states<B>(
    b: BuiltSubsystem<B>,
    spec: SubsystemConfig,
    opened: Seq<Opened<B>>,
    fabric: SocketAddr,
    trtype: TransportType,
    ring_enabled: bool,
    g: int,
)
    requires
        built(b, spec, opened, fabric, trtype, ring_enabled),
        spec.namespaces@.len() <= usize::MAX,
        0 <= g < b.ana@.len(),
    ensures
        forall|i: int|
            0 <= i < b.ana@[g].namespaces@.len() ==> (#[trigger] b.ana@[g].namespaces@[i]).cell
                < b.subsystem.ana_states@.len(),
        forall|i: int, j: int|
            0 <= i < j < b.ana@[g].namespaces@.len() ==> (
            #[trigger] b.ana@[g].namespaces@[i]).cell != (
            #[trigger] b.ana@[g].namespaces@[j]).cell,
{
    let n = spec.namespaces@.len();
    assert(b.ana@[g].namespaces@ == on_cluster(spec.namespaces@, opened, b.ana@[g].cluster@, n));
    lemma_on_cluster_cells(spec.namespaces@, opened, b.ana@[g].cluster@, n);
}

proof fn lemma_on_cluster_cells<B>(
    v: Seq<NamespaceConfig>,
    o: Seq<Opened<B>>,
    c: addr::Endpoint,
    k: nat,
)
    requires
        k <= usize::MAX,
    ensures
        forall|i: int|
            0 <= i < on_cluster(v, o, c, k).len() ==> (#[trigger] on_cluster(v, o, c, k)[i]).cell
                < k,
        forall|i: int, j: int|
            0 <= i < j < on_cluster(v, o, c, k).len() ==> (
            #[trigger] on_cluster(v, o, c, k)[i]).cell < (
            #[trigger] on_cluster(v, o, c, k)[j]).cell,
    decreases k,
{
    if k > 0 {
        lemma_on_cluster_cells(v, o, c, (k - 1) as nat);
        let rest = on_cluster(v, o, c, (k - 1) as nat);
        let all = on_cluster(v, o, c, k);
        assert forall|i: int| 0 <= i < all.len() implies (#[trigger] all[i]).cell < k by {
            if i < rest.len() {
                assert(all[i] == rest[i]);
            }
        }
        assert forall|i: int, j: int| 0 <= i < j < all.len() implies (#[trigger] all[i]).cell < (
        #[trigger] all[j]).cell by {
            assert(all[i] == rest[i]);
            if j < rest.len() {
                assert(all[j] == rest[j]);
            }
        }
    }
}

/// Whether the NQNs of `v` ascend, none twice.
pub open spec fn by_nqn<B>(v: Seq<Subsystem<B>>) -> bool {
    forall|i: int, j: int|
        0 <= i < j < v.len() ==> text::text_less(
            (#[trigger] v[i]).nqn@,
            (#[trigger] v[j]).nqn@,
        )
}

/// Whether `after` is `before` with `s` at `at`: in place of the one of its
/// NQN, or added where there was none.
pub open spec fn added<B>(
    before: Seq<Subsystem<B>>,
    after: Seq<Subsystem<B>>,
    s: Subsystem<B>,
    at: int,
) -> bool {
    ||| 0 <= at < before.len() && before[at].nqn@ == s.nqn@ && after == before.update(at, s)
    ||| 0 <= at <= before.len() && after == before.insert(at, s) && forall|i: int|
        0 <= i < before.len() ==> (#[trigger] before[i]).nqn@ != s.nqn@
}

/// Put `s` among the subsystems of a port, in NQN order, in place of one of its
/// NQN.
pub fn add_subsystem<B>(v: &mut Vec<Subsystem<B>>, s: Subsystem<B>)
    requires
        by_nqn(old(v)@),
    ensures
        by_nqn(final(v)@),
        exists|at: int| #[trigger] added(old(v)@, final(v)@, s, at),
{
    let n: usize = v.len();
    let name: Vec<char> = chars_of(s.nqn.as_str());
    let ghost nqn = s.nqn@;
    let ghost sub = s;
    let mut at: usize = 0;
    while at < n && less(chars_of(v[at].nqn.as_str()).as_slice(), name.as_slice())
        invariant
            at <= n == v@.len(),
            v@ == old(v)@,
            name@ == nqn,
            forall|i: int| 0 <= i < at ==> text::text_less((#[trigger] v@[i]).nqn@, nqn),
        decreases n - at,
    {
        at = at + 1;
    }
    let ghost before = v@;
    proof {
        text::lemma_text_less_irreflexive(nqn);
    }
    if at < n && same_text(v[at].nqn.as_str(), s.nqn.as_str()) {
        v[at] = s;
        proof {
            assert forall|i: int, j: int| 0 <= i < j < v@.len() implies text::text_less(
                (#[trigger] v@[i]).nqn@,
                (#[trigger] v@[j]).nqn@,
            ) by {
                assert(text::text_less(before[i].nqn@, before[j].nqn@));
            }
            assert(v@ =~= before.update(at as int, sub));
            assert(added(before, v@, sub, at as int));
        }
        return ;
    }
    proof {
        assert forall|i: int| at <= i < n implies text::text_less(
            nqn,
            (#[trigger] before[i]).nqn@,
        ) by {
            text::lemma_text_less_total(before[at as int].nqn@, nqn);
            if i > at {
                assert(text::text_less(before[at as int].nqn@, before[i].nqn@));
                text::lemma_text_less_transitive(
                    nqn,
                    before[at as int].nqn@,
                    before[i].nqn@,
                );
            }
        }
    }
    v.insert(at, s);
    proof {
        assert forall|i: int, j: int| 0 <= i < j < v@.len() implies text::text_less(
            (#[trigger] v@[i]).nqn@,
            (#[trigger] v@[j]).nqn@,
        ) by {
            let x = if i < at {
                i
            } else {
                i - 1
            };
            let y = if j < at {
                j
            } else {
                j - 1
            };
            if i != at && j != at {
                assert(text::text_less(before[x].nqn@, before[y].nqn@));
            } else if i == at {
                assert(text::text_less(nqn, before[y].nqn@));
            } else {
                assert(text::text_less(before[x].nqn@, nqn));
            }
        }
        assert(v@ =~= before.insert(at as int, sub));
        assert forall|i: int| 0 <= i < n implies (#[trigger] before[i]).nqn@ != nqn by {
            if i < at {
                assert(text::text_less(before[i].nqn@, nqn));
            } else {
                assert(text::text_less(nqn, before[i].nqn@));
            }
        }
        assert(added(before, v@, sub, at as int));
    }
}

/// Limits a port is opened with.
#[derive(Debug, Clone, Copy, PartialEq, Eq)]
pub struct PortLimits {
    /// Worker threads serving IO connections.
    pub io_threads: usize,
    /// Advertised IO MAXCMD ceiling.
    pub io_queue_size: u16,
    /// Per-IO-queue data-buffer pool size in bytes.
    pub queue_buf_bytes: usize,
    /// Per-connection receive-ring size in bytes, 0 for none.
    pub recv_buf_bytes: usize,
    /// Busy-poll the completion sources.
    pub poll: bool,
}

/// The highest IO queue id offered with `io_threads` worker threads.
pub open spec fn offered_qid(io_threads: usize) -> u16 {
    if 1 <= io_threads <= 0xffff {
        io_threads as u16
    } else {
        1
    }
}

/// Whether `port` listens on `bound` with `limits`.
pub open spec fn listens<B>(
    port: PortConfig<B>,
    limits: PortLimits,
    bound: SocketAddr,
    trtype: TransportType,
) -> bool {
    &&& port.traddr@ == addr::ip_text(bound@.ip)
    &&& port.trsvcid@ == text::decimal(bound@.port as nat)
    &&& port.trtype == trtype
    &&& port.max_qid == offered_qid(limits.io_threads)
    &&& port.io_queue_size == limits.io_queue_size
    &&& port.queue_buf_bytes == limits.queue_buf_bytes
    &&& port.recv_buf_bytes == limits.recv_buf_bytes
    &&& port.poll == limits.poll
}

/// The port of `subsystems`, listening on `bound`.
pub fn listen_port<B>(
    limits: PortLimits,
    bound: SocketAddr,
    trtype: TransportType,
    subsystems: Vec<Subsystem<B>>,
) -> (r: PortConfig<B>)
    ensures
        listens(r, limits, bound, trtype),
        r.subsystems == subsystems,
{
    let mut trsvcid: String = owned("");
    say_number(&mut trsvcid, bound.port as u64);
    proof {
        reveal_strlit("");
        assert(trsvcid@ =~= text::decimal(bound@.port as nat));
    }
    let max_qid: u16 = if 1 <= limits.io_threads && limits.io_threads <= 0xffff {
        limits.io_threads as u16
    } else {
        1
    };
    PortConfig {
        traddr: bound.ip.to_text(),
        trsvcid,
        trtype,
        max_qid,
        io_queue_size: limits.io_queue_size,
        queue_buf_bytes: limits.queue_buf_bytes,
        recv_buf_bytes: limits.recv_buf_bytes,
        poll: limits.poll,
        subsystems,
    }
}

/// The strings a port advertises lead back to the endpoint it listens on.
pub proof fn lemma_advertised_leads_back<B>(
    port: PortConfig<B>,
    limits: PortLimits,
    bound: SocketAddr,
    trtype: TransportType,
)
    requires
        listens(port, limits, bound, trtype),
    ensures
        port.traddr@ == addr::ip_text(bound@.ip),
        subsystem::endpoint_of(Some(bound@.ip), port.trsvcid@) == Some(bound@),
{
    text::lemma_number_of_decimal(bound@.port as nat, 0xffff);
}

/// What opening the cluster namespaces of one configured subsystem revealed.
#[derive(Debug)]
pub struct Found<B> {
    /// The subsystem.
    pub nqn: String,
    /// The subsystem itself, where a later configuration of its NQN is served in
    /// its place. It still has its volumes, and what keeps up with them.
    pub displaced: Option<Subsystem<B>>,
    /// The namespaces that registered this target as a holder of their volume.
    pub registered: Vec<(ClusterNs, ClusterVdi)>,
    /// The cluster namespaces whose ANA state wants tracking, by cluster.
    pub ana: Vec<AnaSpec>,
    /// The ACL it is the export of.
    pub acl: Option<AclSpec>,
}

/// A built port: the port itself, plus the things opening cluster-backed
/// namespaces revealed along the way.
#[derive(Debug)]
pub struct BuiltPort<B> {
    /// The served port.
    pub port: PortConfig<B>,
    /// What each configured subsystem revealed, in order.
    pub found: Vec<Found<B>>,
}

/// Whether `s` is the subsystem of `spec`, and `f` what it revealed.
pub open spec fn built_as<B>(
    s: Subsystem<B>,
    f: Found<B>,
    spec: SubsystemConfig,
    opened: Seq<Opened<B>>,
    fabric: SocketAddr,
    trtype: TransportType,
    ring_enabled: bool,
) -> bool {
    built(
        BuiltSubsystem { subsystem: s, registered: f.registered, ana: f.ana, acl: f.acl },
        spec,
        opened,
        fabric,
        trtype,
        ring_enabled,
    )
}

/// Whether the `i`th of `k` configurations is the last of its NQN.
pub open spec fn last_of_nqn(specs: Seq<SubsystemConfig>, i: int, k: int) -> bool {
    &&& 0 <= i < k
    &&& forall|j: int| i < j < k ==> (#[trigger] specs[j]).nqn@ != specs[i].nqn@
}

/// Whether `s` is the subsystem of one of the first `k` configurations, the
/// last of its NQN.
pub open spec fn configured<B>(
    s: Subsystem<B>,
    found: Seq<Found<B>>,
    specs: Seq<SubsystemConfig>,
    opened: Seq<Vec<Opened<B>>>,
    fabric: SocketAddr,
    trtype: TransportType,
    ring_enabled: bool,
    k: int,
) -> bool {
    exists|i: int|
        #![trigger last_of_nqn(specs, i, k)]
        last_of_nqn(specs, i, k) && i < found.len() && built_as(
            s,
            found[i],
            specs[i],
            opened[i]@,
            fabric,
            trtype,
            ring_enabled,
        )
}

/// Whether `f` is what the `i`th of the configurations revealed: its subsystem
/// too, unless that is the one served.
pub open spec fn reveals<B>(
    f: Found<B>,
    specs: Seq<SubsystemConfig>,
    i: int,
    opened: Seq<Opened<B>>,
    fabric: SocketAddr,
    trtype: TransportType,
    ring_enabled: bool,
) -> bool {
    let spec = specs[i];
    let n = spec.namespaces@.len();
    &&& f.nqn@ == spec.nqn@
    &&& f.registered@ == registered_of(spec.namespaces@, opened, n)
    &&& groups(f.ana@, spec.namespaces@, opened, n)
    &&& f.acl == (match spec.sheepdog_acl {
        Some(acl) => Some(AclSpec { acl, fabric, ring_enabled, trtype }),
        None => None,
    })
    &&& match f.displaced {
        Some(s) => !last_of_nqn(specs, i, specs.len() as int) && built_as(
            s,
            f,
            spec,
            opened,
            fabric,
            trtype,
            ring_enabled,
        ),
        None => last_of_nqn(specs, i, specs.len() as int),
    }
}

fn is_last_of_nqn(specs: &Vec<SubsystemConfig>, i: usize) -> (r: bool)
    requires
        i < specs@.len(),
    ensures
        r == last_of_nqn(specs@, i as int, specs@.len() as int),
{
    let n: usize = specs.len();
    let mut j: usize = i + 1;
    while j < n
        invariant
            i < j <= n == specs@.len(),
            forall|x: int| i < x < j ==> (#[trigger] specs@[x]).nqn@ != specs@[i as int].nqn@,
        decreases n - j,
    {
        if same_text(specs[j].nqn.as_str(), specs[i].nqn.as_str()) {
            return false;
        }
        j = j + 1;
    }
    true
}

/// Every NQN has a last configuration.
proof fn lemma_some_last(specs: Seq<SubsystemConfig>, i: int) -> (r: int)
    requires
        0 <= i < specs.len(),
    ensures
        i <= r,
        last_of_nqn(specs, r, specs.len() as int),
        specs[r].nqn@ == specs[i].nqn@,
    decreases specs.len() - i,
{
    if last_of_nqn(specs, i, specs.len() as int) {
        i
    } else {
        let j = choose|j: int|
            i < j < specs.len() && (#[trigger] specs[j]).nqn@ == specs[i].nqn@;
        lemma_some_last(specs, j)
    }
}

/// The subsystem of one more configuration that is the last of its NQN, put in
/// its place: the others stay what they were.
proof fn lemma_one_more_subsystem<B>(
    before: Seq<Subsystem<B>>,
    after: Seq<Subsystem<B>>,
    s: Subsystem<B>,
    at: int,
    found: Seq<Found<B>>,
    specs: Seq<SubsystemConfig>,
    opened: Seq<Vec<Opened<B>>>,
    fabric: SocketAddr,
    trtype: TransportType,
    ring_enabled: bool,
)
    requires
        added(before, after, s, at),
        0 < found.len() <= specs.len(),
        last_of_nqn(specs, found.len() - 1, specs.len() as int),
        built_as(
            s,
            found.last(),
            specs[found.len() - 1],
            opened[found.len() - 1]@,
            fabric,
            trtype,
            ring_enabled,
        ),
        forall|p: int|
            0 <= p < before.len() ==> configured(
                #[trigger] before[p],
                found.drop_last(),
                specs,
                opened,
                fabric,
                trtype,
                ring_enabled,
                specs.len() as int,
            ),
    ensures
        forall|p: int|
            0 <= p < after.len() ==> configured(
                #[trigger] after[p],
                found,
                specs,
                opened,
                fabric,
                trtype,
                ring_enabled,
                specs.len() as int,
            ),
        subsystem::serves(after, specs[found.len() - 1].nqn@),
        forall|nqn: Seq<char>| #[trigger]
            subsystem::serves(before, nqn) ==> subsystem::serves(after, nqn),
{
    let k = found.len() - 1;
    assert forall|p: int| 0 <= p < before.len() implies configured(
        #[trigger] before[p],
        found,
        specs,
        opened,
        fabric,
        trtype,
        ring_enabled,
        specs.len() as int,
    ) && before[p].nqn@ != s.nqn@ by {
        let i = choose|i: int|
            #![trigger last_of_nqn(specs, i, specs.len() as int)]
            last_of_nqn(specs, i, specs.len() as int) && i < k && built_as(
                before[p],
                found.drop_last()[i],
                specs[i],
                opened[i]@,
                fabric,
                trtype,
                ring_enabled,
            );
        assert(found.drop_last()[i] == found[i]);
        assert(specs[k].nqn@ != specs[i].nqn@);
    }
    assert(after == before.insert(at, s));
    assert(after[at] == s);
    assert forall|p: int| 0 <= p < after.len() implies configured(
        #[trigger] after[p],
        found,
        specs,
        opened,
        fabric,
        trtype,
        ring_enabled,
        specs.len() as int,
    ) by {
        if p < at {
            assert(after[p] == before[p]);
        } else if p > at {
            assert(after[p] == before[p - 1]);
        }
    }
    assert forall|nqn: Seq<char>| #[trigger]
        subsystem::serves(before, nqn) implies subsystem::serves(after, nqn) by {
        let p = choose|p: int| 0 <= p < before.len() && (#[trigger] before[p]).nqn@ == nqn;
        if p < at {
            assert(after[p] == before[p]);
        } else {
            assert(after[p + 1] == before[p]);
        }
    }
}

/// Build the port from the configured subsystems, each namespace on the backend
/// it was opened as. `bound` is the listener's actual local address, so an
/// ephemeral port is served under the real one.
///
/// Of two configurations with one NQN the later is served; what either revealed
/// comes back, and the subsystem that is not served with it.
pub fn build_port<B: Backend>(
    limits: PortLimits,
    bound: SocketAddr,
    trtype: TransportType,
    specs: &Vec<SubsystemConfig>,
    opened: &Vec<Vec<Opened<B>>>,
) -> (r: BuiltPort<B>)
    requires
        opened@.len() == specs@.len(),
        forall|i: int|
            0 <= i < specs@.len() ==> (#[trigger] opened@[i])@.len()
                == specs@[i].namespaces@.len(),
    ensures
        listens(r.port, limits, bound, trtype),
        by_nqn(r.port.subsystems@),
        r.found@.len() == specs@.len(),
        forall|i: int|
            0 <= i < specs@.len() ==> reveals(
                #[trigger] r.found@[i],
                specs@,
                i,
                opened@[i]@,
                bound,
                trtype,
                limits.recv_buf_bytes > 0,
            ),
        forall|p: int|
            0 <= p < r.port.subsystems@.len() ==> configured(
                #[trigger] r.port.subsystems@[p],
                r.found@,
                specs@,
                opened@,
                bound,
                trtype,
                limits.recv_buf_bytes > 0,
                specs@.len() as int,
            ),
        forall|i: int|
            0 <= i < specs@.len() ==> subsystem::serves(r.port.subsystems@, (#[trigger] specs@[i]).nqn@),
{
    let ring: bool = limits.recv_buf_bytes > 0;
    let mut subsystems: Vec<Subsystem<B>> = Vec::new();
    let mut found: Vec<Found<B>> = Vec::new();
    let n: usize = specs.len();
    for i in 0..n
        invariant
            n == specs@.len() == opened@.len(),
            forall|i: int|
                0 <= i < specs@.len() ==> (#[trigger] opened@[i])@.len()
                    == specs@[i].namespaces@.len(),
            by_nqn(subsystems@),
            found@.len() == i,
            forall|j: int|
                0 <= j < i ==> reveals(
                    #[trigger] found@[j],
                    specs@,
                    j,
                    opened@[j]@,
                    bound,
                    trtype,
                    ring,
                ),
            forall|p: int|
                0 <= p < subsystems@.len() ==> configured(
                    #[trigger] subsystems@[p],
                    found@,
                    specs@,
                    opened@,
                    bound,
                    trtype,
                    ring,
                    n as int,
                ),
            forall|j: int|
                0 <= j < i && #[trigger] last_of_nqn(specs@, j, n as int) ==> subsystem::serves(
                    subsystems@,
                    specs@[j].nqn@,
                ),
    {
        let spec: &SubsystemConfig = &specs[i];
        assert(opened@[i as int]@.len() == specs@[i as int].namespaces@.len());
        let b = build_subsystem(spec, &opened[i], bound, trtype, ring);
        let ghost s = b.subsystem;
        let ghost before = subsystems@;
        let ghost had = found@;
        let mut displaced: Option<Subsystem<B>> = None;
        if is_last_of_nqn(specs, i) {
            add_subsystem(&mut subsystems, b.subsystem);
        } else {
            displaced = Some(b.subsystem);
        }
        found.push(
            Found {
                nqn: owned(spec.nqn.as_str()),
                displaced,
                registered: b.registered,
                ana: b.ana,
                acl: b.acl,
            },
        );
        proof {
            assert(found@.drop_last() =~= had);
            if last_of_nqn(specs@, i as int, n as int) {
                let at = choose|at: int| #[trigger] added(before, subsystems@, s, at);
                lemma_one_more_subsystem(
                    before,
                    subsystems@,
                    s,
                    at,
                    found@,
                    specs@,
                    opened@,
                    bound,
                    trtype,
                    ring,
                );
            } else {
                assert forall|p: int| 0 <= p < subsystems@.len() implies configured(
                    #[trigger] subsystems@[p],
                    found@,
                    specs@,
                    opened@,
                    bound,
                    trtype,
                    ring,
                    n as int,
                ) by {
                    assert(configured(
                        before[p],
                        had,
                        specs@,
                        opened@,
                        bound,
                        trtype,
                        ring,
                        n as int,
                    ));
                    let j = choose|j: int|
                        #![trigger last_of_nqn(specs@, j, n as int)]
                        last_of_nqn(specs@, j, n as int) && j < had.len() && built_as(
                            before[p],
                            had[j],
                            specs@[j],
                            opened@[j]@,
                            bound,
                            trtype,
                            ring,
                        );
                    assert(found@[j] == had[j]);
                }
            }
        }
    }
    proof {
        assert forall|i: int| 0 <= i < n implies subsystem::serves(
            subsystems@,
            (#[trigger] specs@[i]).nqn@,
        ) by {
            let j = lemma_some_last(specs@, i);
            assert(last_of_nqn(specs@, j, n as int));
        }
    }
    BuiltPort { port: listen_port(limits, bound, trtype, subsystems), found }
}

// ---------------------------------------------------------------------------
// What a configuration comes to
// ---------------------------------------------------------------------------

/// Whether a configuration lets the host with this name in.
pub open spec fn configured_for(spec: SubsystemConfig, hostnqn: Seq<char>) -> bool {
    spec.allow_any_host || exists|i: int|
        0 <= i < spec.allowed_hosts@.len() && (#[trigger] spec.allowed_hosts@[i])@ == hostnqn
}

/// A subsystem is the one that was configured: it goes by its name, serial number
/// and model, lets in the hosts that the configuration lets in and no others,
/// and allows as many namespaces as it says. It starts at the discovery
/// generation of its ACL object, where it has one, and at 1 otherwise. It
/// reports ANA where a volume of a cluster is behind one of its namespaces, or
/// where it is a cluster ACL's.
pub proof fn lemma_built_subsystem<B>(
    b: BuiltSubsystem<B>,
    spec: SubsystemConfig,
    opened: Seq<Opened<B>>,
    fabric: SocketAddr,
    trtype: TransportType,
    ring_enabled: bool,
    hostnqn: Seq<char>,
)
    requires
        built(b, spec, opened, fabric, trtype, ring_enabled),
        opened.len() == spec.namespaces@.len(),
    ensures
        b.subsystem.nqn@ == spec.nqn@,
        b.subsystem.serial@ == spec.serial@,
        b.subsystem.model@ == spec.model@,
        b.subsystem.mnan == spec.mnan,
        subsystem::admitted(b.subsystem.hosts@, hostnqn) <==> configured_for(spec, hostnqn),
        b.subsystem.ana <==> (spec.sheepdog_acl is Some || exists|i: int|
            0 <= i < opened.len() && (#[trigger] opened[i]).vdi is Some),
        b.subsystem.disc_genctr >= 1,
        spec.sheepdog_acl matches Some(a) ==> b.subsystem.disc_genctr >= a.epoch && (
        b.subsystem.disc_genctr == a.epoch || b.subsystem.disc_genctr == 1),
        spec.sheepdog_acl is None ==> b.subsystem.disc_genctr == 1,
        b.acl is Some <==> spec.sheepdog_acl is Some,
        b.acl matches Some(a) ==> a.acl == spec.sheepdog_acl->0 && a.fabric == fabric && a.trtype
            == trtype && a.ring_enabled == ring_enabled,
{
    let hosts = text::texts(spec.allowed_hosts@);
    if hosts.contains(hostnqn) {
        let i = choose|i: int| 0 <= i < hosts.len() && hosts[i] == hostnqn;
        assert(spec.allowed_hosts@[i]@ == hostnqn);
    }
    if !spec.allow_any_host && configured_for(spec, hostnqn) {
        let i = choose|i: int|
            0 <= i < spec.allowed_hosts@.len() && (#[trigger] spec.allowed_hosts@[i])@ == hostnqn;
        assert(hosts[i] == hostnqn);
    }
    let n = spec.namespaces@.len();
    if b.ana@.len() > 0 {
        let g = b.ana@[0];
        assert(g.namespaces@ == on_cluster(spec.namespaces@, opened, g.cluster@, n));
        lemma_on_cluster_from(spec.namespaces@, opened, g.cluster@, n, 0);
    }
}

/// The table of a subsystem has the namespaces that were configured and no
/// others. Where no two of them share a number, each is on the backend that was
/// opened for it, and goes by the identity that it was given, or else by that of
/// its storage, or else by one made of its subsystem's name and its number.
pub proof fn lemma_built_namespaces<B>(
    b: BuiltSubsystem<B>,
    spec: SubsystemConfig,
    opened: Seq<Opened<B>>,
    fabric: SocketAddr,
    trtype: TransportType,
    ring_enabled: bool,
    nsid: u32,
)
    requires
        built(b, spec, opened, fabric, trtype, ring_enabled),
        opened.len() == spec.namespaces@.len(),
    ensures
        ({
            let m = b.subsystem.namespaces@;
            let v = spec.namespaces@;
            &&& m.contains_key(nsid) <==> exists|i: int|
                0 <= i < v.len() && (#[trigger] v[i]).nsid == nsid
            &&& forall|i: int|
                0 <= i < v.len() && (#[trigger] v[i]).nsid == nsid && (forall|j: int|
                    i < j < v.len() ==> (#[trigger] v[j]).nsid != nsid) ==> {
                    &&& m[nsid].nsid == nsid
                    &&& m[nsid].backend == opened[i].backend
                    &&& v[i].uuid matches Some(u) ==> m[nsid].uuid@ == u@
                    &&& v[i].uuid is None ==> (opened[i].uuid matches Some(u) ==> m[nsid].uuid@
                        == u@)
                    &&& v[i].uuid is None && opened[i].uuid is None ==> m[nsid].uuid@
                        == uuid::derived(vstd::utf8::encode_utf8(spec.nqn@), nsid)
                }
        }),
{
    let m = b.subsystem.namespaces@;
    let v = spec.namespaces@;
    lemma_last_with(v, nsid, v.len());
    let known = m.dom().contains(nsid);
    assert(holds_namespaces(m, spec.nqn@, v, opened, v.len()));
    assert forall|i: int|
        0 <= i < v.len() && (#[trigger] v[i]).nsid == nsid && (forall|j: int|
            i < j < v.len() ==> (#[trigger] v[j]).nsid != nsid) implies last_with(v, nsid, v.len())
        == Some(i) by {
        let k = last_with(v, nsid, v.len())->0;
        if k > i {
            assert(v[k].nsid != nsid);
        }
    }
}

proof fn lemma_last_with(v: Seq<NamespaceConfig>, nsid: u32, k: nat)
    requires
        k <= v.len(),
    ensures
        match last_with(v, nsid, k) {
            Some(i) => 0 <= i < k && v[i].nsid == nsid && forall|j: int|
                i < j < k ==> (#[trigger] v[j]).nsid != nsid,
            None => forall|j: int| 0 <= j < k ==> (#[trigger] v[j]).nsid != nsid,
        },
    decreases k,
{
    if k > 0 {
        lemma_last_with(v, nsid, (k - 1) as nat);
    }
}

/// A volume this target has registered for is kept track of with the namespace
/// it is behind, and no other volume is.
pub proof fn lemma_registered<B>(v: Seq<NamespaceConfig>, o: Seq<Opened<B>>, k: nat, i: int)
    requires
        k <= v.len(),
        v.len() == o.len(),
        v.len() <= usize::MAX,
    ensures
        ({
            let r = registered_of(v, o, k);
            &&& 0 <= i < k && (o[i].vdi matches Some(d) && d.owner is Some) ==> r.contains(
                (
                    ClusterNs {
                        nsid: v[i].nsid,
                        cell: i as usize,
                        volume: o[i].vdi->0.volume,
                        vid: o[i].vdi->0.vid,
                    },
                    o[i].vdi->0,
                ),
            )
            &&& forall|j: int|
                0 <= j < r.len() ==> exists|n: int|
                    0 <= n < k && (#[trigger] o[n]).vdi == Some((#[trigger] r[j]).1)
                        && r[j].1.owner is Some && r[j].0.nsid == v[n].nsid && r[j].0.cell == n
        }),
    decreases k,
{
    if k > 0 {
        let m = (k - 1) as nat;
        lemma_registered(v, o, m, i);
        let rest = registered_of(v, o, m);
        let r = registered_of(v, o, k);
        if 0 <= i < k && (o[i].vdi matches Some(d) && d.owner is Some) {
            let e = (cluster_ns(v[i].nsid, i as usize, o[i].vdi->0), o[i].vdi->0);
            if i == m {
                assert(r[rest.len() as int] == e);
            } else {
                let j = choose|j: int| 0 <= j < rest.len() && rest[j] == e;
                assert(r[j] == e);
            }
        }
        assert forall|j: int| 0 <= j < r.len() implies exists|n: int|
            0 <= n < k && (#[trigger] o[n]).vdi == Some((#[trigger] r[j]).1) && r[j].1.owner is Some
                && r[j].0.nsid == v[n].nsid && r[j].0.cell == n by {
            if j < rest.len() {
                assert(r[j] == rest[j]);
                let n = choose|n: int|
                    0 <= n < m && (#[trigger] o[n]).vdi == Some(rest[j].1) && rest[j].1.owner
                        is Some && rest[j].0.nsid == v[n].nsid && rest[j].0.cell == n;
                assert(o[n].vdi == Some(r[j].1));
            } else {
                assert(o[m as int].vdi == Some(r[j].1));
            }
        }
    }
}

/// What is tracked on a cluster are the namespaces whose volume lies there, all
/// of them and no others.
pub proof fn lemma_tracked<B>(
    v: Seq<NamespaceConfig>,
    o: Seq<Opened<B>>,
    c: addr::Endpoint,
    k: nat,
    i: int,
)
    requires
        k <= v.len(),
        v.len() == o.len(),
        v.len() <= usize::MAX,
    ensures
        ({
            let r = on_cluster(v, o, c, k);
            &&& 0 <= i < k && (o[i].vdi matches Some(d) && d.cluster@ == c) ==> r.contains(
                ClusterNs {
                    nsid: v[i].nsid,
                    cell: i as usize,
                    volume: o[i].vdi->0.volume,
                    vid: o[i].vdi->0.vid,
                },
            )
            &&& forall|j: int|
                0 <= j < r.len() ==> {
                    let n = (#[trigger] r[j]).cell as int;
                    &&& 0 <= n < k
                    &&& o[n].vdi matches Some(d) && d.cluster@ == c && d.vid == r[j].vid && d.volume
                        == r[j].volume
                    &&& r[j].nsid == v[n].nsid
                }
        }),
    decreases k,
{
    if k > 0 {
        let m = (k - 1) as nat;
        lemma_tracked(v, o, c, m, i);
        let rest = on_cluster(v, o, c, m);
        let r = on_cluster(v, o, c, k);
        if 0 <= i < k && (o[i].vdi matches Some(d) && d.cluster@ == c) {
            let e = cluster_ns(v[i].nsid, i as usize, o[i].vdi->0);
            if i == m {
                assert(r[rest.len() as int] == e);
            } else {
                let j = choose|j: int| 0 <= j < rest.len() && rest[j] == e;
                assert(r[j] == e);
            }
        }
        assert forall|j: int| 0 <= j < r.len() implies {
            let n = (#[trigger] r[j]).cell as int;
            &&& 0 <= n < k
            &&& o[n].vdi matches Some(d) && d.cluster@ == c && d.vid == r[j].vid && d.volume
                == r[j].volume
            &&& r[j].nsid == v[n].nsid
        } by {
            if j < rest.len() {
                assert(r[j] == rest[j]);
            }
        }
    }
}

proof fn lemma_on_cluster_from<B>(
    v: Seq<NamespaceConfig>,
    o: Seq<Opened<B>>,
    c: addr::Endpoint,
    k: nat,
    j: int,
)
    requires
        k <= o.len(),
        0 <= j < on_cluster(v, o, c, k).len(),
    ensures
        exists|i: int| 0 <= i < k && (#[trigger] o[i]).vdi is Some,
    decreases k,
{
    if k > 0 {
        if o[k - 1].vdi is None {
            lemma_on_cluster_from(v, o, c, (k - 1) as nat, j);
        }
    }
}

/// A port offers one IO queue for each of its worker threads, and at least one.
pub proof fn lemma_offered_qid(io_threads: usize)
    ensures
        offered_qid(io_threads) >= 1,
        0 < io_threads < 0x1_0000 ==> offered_qid(io_threads) == io_threads,
{
}

/// A port keeps the limits it was given, each where it belongs.
pub proof fn lemma_port_limits<B>(
    port: PortConfig<B>,
    limits: PortLimits,
    bound: SocketAddr,
    trtype: TransportType,
)
    requires
        listens(port, limits, bound, trtype),
    ensures
        port.trtype == trtype,
        port.io_queue_size == limits.io_queue_size,
        port.queue_buf_bytes == limits.queue_buf_bytes,
        port.recv_buf_bytes == limits.recv_buf_bytes,
        port.poll == limits.poll,
{
}

/// What a configuration revealed goes by its name. Its subsystem is kept aside
/// exactly where a later configuration has the same name, and is then the one
/// that was configured; its ACL object is kept up with where it has one.
pub proof fn lemma_revealed<B>(
    f: Found<B>,
    specs: Seq<SubsystemConfig>,
    i: int,
    opened: Seq<Opened<B>>,
    fabric: SocketAddr,
    trtype: TransportType,
    ring_enabled: bool,
)
    requires
        reveals(f, specs, i, opened, fabric, trtype, ring_enabled),
        0 <= i < specs.len(),
    ensures
        f.nqn@ == specs[i].nqn@,
        f.displaced is Some <==> exists|j: int|
            i < j < specs.len() && (#[trigger] specs[j]).nqn@ == specs[i].nqn@,
        f.displaced matches Some(s) ==> s.nqn@ == specs[i].nqn@ && s.serial@ == specs[i].serial@,
        f.acl is Some <==> specs[i].sheepdog_acl is Some,
        f.acl matches Some(a) ==> a.acl == specs[i].sheepdog_acl->0 && a.fabric == fabric
            && a.trtype == trtype && a.ring_enabled == ring_enabled,
{
}

/// A port serves, under each name that is configured, one subsystem, that of the
/// last configuration with the name; the subsystems are in the order of their
/// names.
pub proof fn lemma_port_serves<B>(
    v: Seq<Subsystem<B>>,
    found: Seq<Found<B>>,
    specs: Seq<SubsystemConfig>,
    opened: Seq<Vec<Opened<B>>>,
    fabric: SocketAddr,
    trtype: TransportType,
    ring_enabled: bool,
    p: int,
    q: int,
)
    requires
        by_nqn(v),
        0 <= p < v.len(),
        0 <= q < v.len(),
        configured(
            v[p],
            found,
            specs,
            opened,
            fabric,
            trtype,
            ring_enabled,
            specs.len() as int,
        ),
    ensures
        v[p].nqn@ == v[q].nqn@ ==> p == q,
        text::text_less(v[p].nqn@, v[q].nqn@) <==> p < q,
        exists|i: int|
            {
                &&& 0 <= i < specs.len()
                &&& (#[trigger] specs[i]).nqn@ == v[p].nqn@
                &&& specs[i].serial@ == v[p].serial@
                &&& specs[i].allow_any_host == v[p].hosts@.any
                &&& forall|j: int| i < j < specs.len() ==> (#[trigger] specs[j]).nqn@ != v[p].nqn@
            },
{
    if p < q {
        assert(text::text_less(v[p].nqn@, v[q].nqn@));
        if v[p].nqn@ == v[q].nqn@ {
            text::lemma_text_less_irreflexive(v[p].nqn@);
        }
    } else {
        text::lemma_text_less_irreflexive(v[p].nqn@);
        if q < p {
            assert(text::text_less(v[q].nqn@, v[p].nqn@));
            if text::text_less(v[p].nqn@, v[q].nqn@) {
                text::lemma_text_less_transitive(v[p].nqn@, v[q].nqn@, v[p].nqn@);
            }
        }
    }
    let i = choose|i: int|
        #![trigger last_of_nqn(specs, i, specs.len() as int)]
        last_of_nqn(specs, i, specs.len() as int) && i < found.len() && built_as(
            v[p],
            found[i],
            specs[i],
            opened[i]@,
            fabric,
            trtype,
            ring_enabled,
        );
    assert(specs[i].nqn@ == v[p].nqn@);
}

} // verus!
