//! Cluster paths: which targets a subsystem is reachable through.
//!
//! Opening a Sheepdog namespace registers this target's fabric address as a
//! holder of that volume; the cluster's list of holders is therefore the list
//! of targets serving it, and the union across the subsystem's volumes is the
//! set of paths its discovery entries advertise. Nothing here is a separate
//! cluster object: the namespaces the subsystem already opened *are* the
//! registration.

use vstd::prelude::*;

use crate::addr;
use crate::addr::SocketAddr;
use crate::backend::Backend;
use crate::harness::cntlid::HolderSlot;
use crate::harness::port::{ClusterNs, ClusterVdi};
use crate::sheepdog::calls::VdiHolder;
use crate::subsystem;
use crate::subsystem::{Subsystem, SubsystemPort, TransportType};
use crate::text;
use crate::text::{owned, say_number};

verus! {

/// What a subsystem's path list is read back from.
#[derive(Debug)]
pub struct ClusterPaths {
    /// The cluster the volumes live on.
    pub cluster: SocketAddr,
    /// The address this target registered as their holder, and the one its own
    /// discovery entry carries: what a host must connect to to reach it.
    pub owner: SocketAddr,
    /// The registered namespaces, re-registered when the cluster stops listing
    /// us.
    pub namespaces: Vec<ClusterNs>,
    /// Transport of the port that opened them.
    pub trtype: TransportType,
    /// The subsystem whose path list the holders feed.
    pub subsystem: u64,
}

/// The volumes on cluster `c` among the first `k` registered ones.
pub open spec fn registered_on(
    registered: Seq<(ClusterNs, ClusterVdi)>,
    c: addr::Endpoint,
    k: nat,
) -> Seq<ClusterNs>
    decreases k,
{
    if k == 0 {
        seq![]
    } else {
        let rest = registered_on(registered, c, (k - 1) as nat);
        let (ns, vdi) = registered[k - 1];
        if vdi.cluster@ == c {
            rest.push(ns)
        } else {
            rest
        }
    }
}

/// The paths to track for a subsystem that registered for `registered`.
///
/// A subsystem with none of those (no cluster storage, or locking turned off)
/// keeps the default path list: this target alone. Volumes on a second cluster
/// have their own holder lists, which say nothing about who serves *this*
/// one's; a subsystem spanning clusters advertises the paths of the first.
pub fn track_cluster_paths(
    registered: &Vec<(ClusterNs, ClusterVdi)>,
    trtype: TransportType,
    subsystem: u64,
) -> (r: Option<ClusterPaths>)
    ensures
        r is Some <==> registered@.len() > 0 && registered@[0].1.owner is Some,
        match r {
            Some(p) => {
                &&& p.cluster == registered@[0].1.cluster
                &&& Some(p.owner) == registered@[0].1.owner
                &&& p.namespaces@ == registered_on(registered@, p.cluster@, registered@.len())
                &&& p.trtype == trtype
                &&& p.subsystem == subsystem
            },
            None => true,
        },
{
    if registered.len() == 0 {
        return None;
    }
    let cluster = registered[0].1.cluster;
    let owner = match registered[0].1.owner {
        Some(o) => o,
        None => {
            return None;
        },
    };
    let mut namespaces: Vec<ClusterNs> = Vec::new();
    let n: usize = registered.len();
    for i in 0..n
        invariant
            n == registered@.len(),
            namespaces@ == registered_on(registered@, cluster@, i as nat),
    {
        if registered[i].1.cluster.same(&cluster) {
            namespaces.push(registered[i].0);
        }
    }
    Some(ClusterPaths { cluster, owner, namespaces, trtype, subsystem })
}

/// Whether `hs` lists `owner`.
pub open spec fn lists(hs: Seq<VdiHolder>, owner: addr::Endpoint) -> bool {
    exists|j: int| 0 <= j < hs.len() && (#[trigger] hs[j]).addr@ == owner
}

/// The first `k` volumes whose holders do not list `owner`.
pub open spec fn unlisted(h: Seq<Vec<VdiHolder>>, owner: addr::Endpoint, k: nat) -> Seq<usize>
    decreases k,
{
    if k == 0 {
        seq![]
    } else {
        let rest = unlisted(h, owner, (k - 1) as nat);
        if lists(h[k - 1]@, owner) {
            rest
        } else {
            rest.push((k - 1) as usize)
        }
    }
}

/// The smaller of two lengths.
pub open spec fn paired(a: nat, b: nat) -> nat {
    if a < b {
        a
    } else {
        b
    }
}

/// Where `owner` stands in `hs`, from `j` on: the slot of the first entry.
pub open spec fn slot_in(hs: Seq<VdiHolder>, owner: addr::Endpoint, j: int) -> Option<u16>
    decreases hs.len() - j,
{
    if j < 0 || j >= hs.len() {
        None
    } else if hs[j].addr@ == owner {
        Some(hs[j].index)
    } else {
        slot_in(hs, owner, j + 1)
    }
}

/// The first of the first `n` volumes with the lowest vid.
pub open spec fn lowest(v: Seq<ClusterNs>, n: nat) -> int
    decreases n,
{
    if n <= 1 {
        0
    } else {
        let best = lowest(v, (n - 1) as nat);
        if v[n - 1].vid < v[best].vid {
            n - 1
        } else {
            best
        }
    }
}

/// Our slot among the holders of the lowest-vid volume. The lowest vid is a
/// choice every target serving the volume makes the same way, and within one
/// volume the cluster hands out each slot once — which is what makes the slot
/// usable as a partition id.
pub open spec fn own_slot(
    v: Seq<ClusterNs>,
    h: Seq<Vec<VdiHolder>>,
    owner: addr::Endpoint,
) -> Option<HolderSlot> {
    let n = paired(v.len(), h.len());
    if n == 0 {
        None
    } else {
        let i = lowest(v, n);
        match slot_in(h[i]@, owner, 0) {
            Some(slot) => Some(HolderSlot { vid: v[i].vid, slot }),
            None => None,
        }
    }
}

fn find_slot(hs: &Vec<VdiHolder>, owner: &SocketAddr) -> (r: Option<u16>)
    ensures
        r == slot_in(hs@, owner@, 0),
        r is Some <==> lists(hs@, owner@),
{
    let n: usize = hs.len();
    let mut j: usize = 0;
    while j < n
        invariant
            j <= n == hs@.len(),
            slot_in(hs@, owner@, 0) == slot_in(hs@, owner@, j as int),
            forall|i: int| 0 <= i < j ==> (#[trigger] hs@[i]).addr@ != owner@,
        decreases n - j,
    {
        if hs[j].addr.same(owner) {
            return Some(hs[j].index);
        }
        j = j + 1;
    }
    None
}

fn find_own_slot(p: &ClusterPaths, holders: &Vec<Vec<VdiHolder>>) -> (r: Option<HolderSlot>)
    ensures
        r == own_slot(p.namespaces@, holders@, p.owner@),
{
    let n: usize = if p.namespaces.len() < holders.len() {
        p.namespaces.len()
    } else {
        holders.len()
    };
    if n == 0 {
        return None;
    }
    let mut best: usize = 0;
    let mut i: usize = 1;
    while i < n
        invariant
            1 <= i <= n,
            n == paired(p.namespaces@.len(), holders@.len()),
            best < i,
            best == lowest(p.namespaces@, i as nat),
        decreases n - i,
    {
        if p.namespaces[i].vid < p.namespaces[best].vid {
            best = i;
        }
        i = i + 1;
    }
    match find_slot(&holders[best], &p.owner) {
        Some(slot) => Some(HolderSlot { vid: p.namespaces[best].vid, slot }),
        None => None,
    }
}

/// Every address registered for any of the volumes.
pub open spec fn registrants(h: Seq<Vec<VdiHolder>>) -> Set<addr::Endpoint> {
    Set::new(|e: addr::Endpoint| exists|i: int| 0 <= i < h.len() && lists(#[trigger] h[i]@, e))
}

/// The endpoints of `v`.
pub open spec fn ends(v: Seq<SocketAddr>) -> Seq<addr::Endpoint> {
    Seq::new(v.len(), |i: int| v[i]@)
}

/// Whether the endpoints ascend, none twice.
pub open spec fn ascend(e: Seq<addr::Endpoint>) -> bool {
    forall|i: int, j: int| 0 <= i < j < e.len() ==> addr::before(#[trigger] e[i], #[trigger] e[j])
}

/// Whether `e` is the endpoints of `h` in order.
pub open spec fn in_order(e: Seq<addr::Endpoint>, h: Seq<Vec<VdiHolder>>) -> bool {
    ascend(e) && e.to_set() =~= registrants(h)
}

/// The paths of a subsystem held at `e`: a PORTID is the place in the list.
pub open spec fn path_list(e: Seq<addr::Endpoint>, trtype: TransportType) -> Seq<subsystem::Path> {
    Seq::new(
        e.len(),
        |i: int|
            subsystem::Path {
                traddr: addr::ip_text(e[i].ip),
                trsvcid: text::decimal(e[i].port as nat),
                trtype,
                portid: if i < 0xffff {
                    i as u16
                } else {
                    0xffff
                },
            },
    )
}

fn insert_addr(v: &mut Vec<SocketAddr>, a: SocketAddr)
    requires
        ascend(ends(old(v)@)),
    ensures
        ascend(ends(final(v)@)),
        ends(final(v)@).to_set() =~= ends(old(v)@).to_set().insert(a@),
{
    let n: usize = v.len();
    let mut at: usize = 0;
    let ghost was = ends(v@);
    while at < n && v[at].precedes(&a)
        invariant
            at <= n == v@.len(),
            v@ == old(v)@,
            was == ends(v@),
            forall|i: int| 0 <= i < at ==> addr::before(#[trigger] was[i], a@),
        decreases n - at,
    {
        assert(was[at as int] == v@[at as int]@);
        at = at + 1;
    }
    if at < n && v[at].same(&a) {
        proof {
            assert(was[at as int] == a@);
            assert(was.to_set().insert(a@) =~= was.to_set());
        }
        return ;
    }
    proof {
        assert forall|i: int| at <= i < n implies addr::before(a@, #[trigger] was[i]) by {
            assert(was[at as int] == v@[at as int]@);
            addr::lemma_endpoint_order(was[at as int], a@, was[i]);
            addr::lemma_endpoint_order(a@, was[at as int], was[i]);
        }
    }
    v.insert(at, a);
    proof {
        let now = ends(v@);
        assert(now =~= was.insert(at as int, a@));
        assert forall|i: int, j: int| 0 <= i < j < now.len() implies addr::before(
            #[trigger] now[i],
            #[trigger] now[j],
        ) by {
            let x = if i < at {
                i
            } else {
                i - 1
            };
            let y = if j < at {
                j
            } else {
                j - 1
            };
            if i == at {
                assert(addr::before(a@, was[y]));
            } else if j == at {
                assert(addr::before(was[x], a@));
            } else {
                assert(addr::before(was[x], was[y]));
            }
        }
        assert forall|e: addr::Endpoint|
            now.to_set().contains(e) == was.to_set().insert(a@).contains(e) by {
            if now.contains(e) {
                let k = choose|k: int| 0 <= k < now.len() && now[k] == e;
                if k < at {
                    assert(was[k] == e);
                } else if k > at {
                    assert(was[k - 1] == e);
                }
            }
            if was.contains(e) {
                let k = choose|k: int| 0 <= k < was.len() && was[k] == e;
                if k < at {
                    assert(now[k] == e);
                } else {
                    assert(now[k + 1] == e);
                }
            }
            assert(now[at as int] == a@);
        }
    }
}

/// The addresses of `holders`, each once, in order.
fn sorted_addrs(holders: &Vec<Vec<VdiHolder>>) -> (r: Vec<SocketAddr>)
    ensures
        in_order(ends(r@), holders@),
{
    let mut r: Vec<SocketAddr> = Vec::new();
    let n: usize = holders.len();
    assert(ends(r@).to_set() =~= registrants(holders@.take(0)));
    for i in 0..n
        invariant
            n == holders@.len(),
            ascend(ends(r@)),
            ends(r@).to_set() =~= registrants(holders@.take(i as int)),
    {
        let hs: &Vec<VdiHolder> = &holders[i];
        let m: usize = hs.len();
        let ghost start = registrants(holders@.take(i as int));
        for j in 0..m
            invariant
                m == hs@.len(),
                ascend(ends(r@)),
                forall|e: addr::Endpoint| #[trigger]
                    ends(r@).to_set().contains(e) <==> start.contains(e) || lists(
                        hs@.take(j as int),
                        e,
                    ),
        {
            let ghost before = ends(r@).to_set();
            insert_addr(&mut r, hs[j].addr);
            proof {
                assert forall|e: addr::Endpoint| #[trigger]
                    ends(r@).to_set().contains(e) <==> start.contains(e) || lists(
                        hs@.take(j + 1),
                        e,
                    ) by {
                    let a = hs@.take(j as int);
                    let b = hs@.take(j + 1);
                    assert(before.contains(e) <==> start.contains(e) || lists(a, e));
                    if lists(a, e) {
                        let x = choose|x: int| 0 <= x < a.len() && (#[trigger] a[x]).addr@ == e;
                        assert(b[x] == a[x]);
                    }
                    if lists(b, e) {
                        let x = choose|x: int| 0 <= x < b.len() && (#[trigger] b[x]).addr@ == e;
                        if x < j {
                            assert(a[x] == b[x]);
                        } else {
                            assert(b[x] == hs@[j as int]);
                        }
                    }
                    if e == hs@[j as int].addr@ {
                        assert(b[j as int].addr@ == e);
                    }
                }
            }
        }
        proof {
            assert(hs@.take(m as int) =~= hs@);
            let a = holders@.take(i as int);
            let b = holders@.take(i + 1);
            assert forall|e: addr::Endpoint|
                ends(r@).to_set().contains(e) == registrants(b).contains(e) by {
                if registrants(a).contains(e) {
                    let x = choose|x: int| 0 <= x < a.len() && lists(#[trigger] a[x]@, e);
                    assert(b[x] == a[x]);
                }
                if registrants(b).contains(e) {
                    let x = choose|x: int| 0 <= x < b.len() && lists(#[trigger] b[x]@, e);
                    if x < i {
                        assert(a[x] == b[x]);
                    } else {
                        assert(b[x] == holders@[i as int]);
                    }
                }
                assert(b[i as int] == holders@[i as int]);
            }
        }
    }
    assert(holders@.take(n as int) =~= holders@);
    r
}

fn path_to(a: &SocketAddr, place: usize, trtype: TransportType) -> (r: SubsystemPort)
    ensures
        r@ == (subsystem::Path {
            traddr: addr::ip_text(a@.ip),
            trsvcid: text::decimal(a@.port as nat),
            trtype,
            portid: if place < 0xffff {
                place as u16
            } else {
                0xffff
            },
        }),
{
    let mut trsvcid: String = owned("");
    say_number(&mut trsvcid, a.port as u64);
    proof {
        reveal_strlit("");
        assert(trsvcid@ =~= text::decimal(a@.port as nat));
    }
    let portid: u16 = if place < 0xffff {
        place as u16
    } else {
        0xffff
    };
    SubsystemPort { traddr: a.ip.to_text(), trsvcid, trtype, portid }
}

/// What a holder list says.
#[derive(Debug, Clone, Copy, PartialEq, Eq)]
pub struct Applied {
    /// Where the cluster files this target among the volumes' holders.
    pub slot: Option<HolderSlot>,
    /// Tell the hosts the discovery log moved.
    pub notify: bool,
}

/// Whether `after` is `before` with the path list the holders `h` make.
pub open spec fn follows_holders<B>(
    before: Subsystem<B>,
    after: Subsystem<B>,
    h: Seq<Vec<VdiHolder>>,
    trtype: TransportType,
    announce: bool,
    notify: bool,
) -> bool {
    exists|e: Seq<addr::Endpoint>| #[trigger]
        in_order(e, h) && if e.len() == 0 {
            after == before && !notify
        } else {
            &&& subsystem::paths(after.ports@) == path_list(e, trtype)
            &&& notify == (announce && subsystem::paths(before.ports@) != path_list(e, trtype))
            &&& after == (Subsystem {
                ports: after.ports,
                disc_genctr: if notify {
                    before.disc_genctr.wrapping_add(1)
                } else {
                    before.disc_genctr
                },
                ..before
            })
        }
}

/// Read the holders of a subsystem's volumes into its path list.
///
/// The union across the subsystem's volumes: a target holding any of them is a
/// path to the subsystem. Nobody holding anything is a cluster mid-restart,
/// most likely, and leaves the path list as it was rather than flapping the
/// hosts' view of it.
///
/// A holder joining or leaving is a change to what the discovery log says, and
/// one no cluster counter records. So when the path list really changes,
/// `announce` bumps the subsystem's discovery generation and tells the hosts.
/// It is off for the seeding call, where the list goes from empty to whatever
/// the cluster says and nobody has read it yet.
pub fn apply_holders<B: Backend>(
    p: &ClusterPaths,
    holders: &Vec<Vec<VdiHolder>>,
    announce: bool,
    s: &mut Subsystem<B>,
) -> (r: Applied)
    ensures
        r.slot == own_slot(p.namespaces@, holders@, p.owner@),
        follows_holders(*old(s), *final(s), holders@, p.trtype, announce, r.notify),
        old(s).wf() ==> final(s).wf(),
{
    let slot = find_own_slot(p, holders);
    let addrs = sorted_addrs(holders);
    let ghost e = ends(addrs@);
    assert(in_order(e, holders@));
    let n: usize = addrs.len();
    if n == 0 {
        return Applied { slot, notify: false };
    }
    let mut ports: Vec<SubsystemPort> = Vec::new();
    for i in 0..n
        invariant
            n == addrs@.len(),
            e == ends(addrs@),
            subsystem::paths(ports@) =~= path_list(e, p.trtype).take(i as int),
    {
        let ghost before = subsystem::paths(ports@);
        ports.push(path_to(&addrs[i], i, p.trtype));
        proof {
            let list = path_list(e, p.trtype);
            assert(e[i as int] == addrs@[i as int]@);
            assert(subsystem::paths(ports@) =~= before.push(list[i as int]));
            assert(list.take(i as int).push(list[i as int]) =~= list.take(i + 1));
        }
    }
    assert(path_list(e, p.trtype).take(n as int) =~= path_list(e, p.trtype));
    let changed: bool = s.set_ports(ports);
    let notify: bool = changed && announce;
    if notify {
        // The generation moves before any host can be told to re-read the log,
        // or the re-read looks unchanged and the notice is wasted.
        s.bump_disc_genctr();
    }
    Applied { slot, notify }
}

/// Every target computes the same paths, with the same PORTIDs, for the same
/// holders: two ordered lists of one set of endpoints are one list.
pub proof fn lemma_one_path_list(
    a: Seq<addr::Endpoint>,
    b: Seq<addr::Endpoint>,
    h: Seq<Vec<VdiHolder>>,
    g: Seq<Vec<VdiHolder>>,
)
    requires
        in_order(a, h),
        in_order(b, g),
        registrants(h) =~= registrants(g),
    ensures
        a == b,
{
    lemma_same_prefix(a, b, if a.len() < b.len() {
        a.len()
    } else {
        b.len()
    });
    if a.len() < b.len() {
        assert(b.to_set().contains(b[a.len() as int]));
        assert(a.to_set().contains(b[a.len() as int]));
        let k = choose|k: int| 0 <= k < a.len() && a[k] == b[a.len() as int];
        assert(a.take(a.len() as int)[k] == b.take(a.len() as int)[k]);
        addr::lemma_endpoint_order(b[k], b[a.len() as int], b[k]);
    }
    if b.len() < a.len() {
        assert(a.to_set().contains(a[b.len() as int]));
        assert(b.to_set().contains(a[b.len() as int]));
        let k = choose|k: int| 0 <= k < b.len() && b[k] == a[b.len() as int];
        assert(a.take(b.len() as int)[k] == b.take(b.len() as int)[k]);
        addr::lemma_endpoint_order(a[k], a[b.len() as int], a[k]);
    }
    assert(a =~= a.take(a.len() as int));
    assert(b =~= b.take(b.len() as int));
}

proof fn lemma_same_prefix(a: Seq<addr::Endpoint>, b: Seq<addr::Endpoint>, n: nat)
    requires
        ascend(a),
        ascend(b),
        a.to_set() =~= b.to_set(),
        n <= a.len(),
        n <= b.len(),
    ensures
        a.take(n as int) == b.take(n as int),
    decreases n,
{
    if n > 0 {
        lemma_same_prefix(a, b, (n - 1) as nat);
        let m = n - 1;
        assert forall|i: int| 0 <= i < m implies a[i] == b[i] by {
            assert(a.take(m)[i] == b.take(m)[i]);
        }
        assert(a.to_set().contains(a[m]));
        assert(b.to_set().contains(b[m]));
        let x = choose|x: int| 0 <= x < b.len() && b[x] == a[m];
        let y = choose|y: int| 0 <= y < a.len() && a[y] == b[m];
        if a[m] != b[m] {
            if x < m {
                addr::lemma_endpoint_order(a[x], a[m], a[x]);
            }
            if y < m {
                addr::lemma_endpoint_order(b[y], b[m], b[y]);
            }
            addr::lemma_endpoint_order(a[m], b[m], a[m]);
            assert(addr::before(b[m], b[x]));
            assert(addr::before(a[m], a[y]));
        }
        assert(a.take(n as int) =~= b.take(n as int));
    }
}

/// A re-read of a path list under way.
///
/// Any volume this target is no longer listed for is registered again — the
/// cluster dropped us while we were away, a restart, or an eviction and rejoin.
#[derive(Debug)]
pub struct PathRefresh {
    /// The holders last read, by volume.
    pub holders: Vec<Vec<VdiHolder>>,
    /// The volumes to register again.
    pub todo: Vec<usize>,
    /// The next of them.
    pub at: usize,
    /// A registration was retaken since the holders were read.
    pub retaken: bool,
}

/// What a re-read does next.
#[derive(Debug, Clone, Copy, PartialEq, Eq, Structural)]
pub enum PathStep {
    /// Register again for the volume of this namespace, by its place.
    Reregister(usize),
    /// Read the holders again.
    Reread,
    /// Apply what was read.
    Settled,
}

impl PathRefresh {
    /// The place is in the list.
    pub open spec fn wf(&self) -> bool {
        self.at <= self.todo@.len()
    }

    /// The holders of `p`'s volumes were read, or the cluster would not answer.
    ///
    /// One started before a shutdown did and finishing after is abandoned: a
    /// registration retaken now is one the release walk may already have
    /// passed, so it would outlive the process.
    pub fn start(
        p: &ClusterPaths,
        read: Option<Vec<Vec<VdiHolder>>>,
        shutting_down: bool,
    ) -> (r: Option<PathRefresh>)
        ensures
            r is Some <==> read is Some && !shutting_down,
            match r {
                Some(f) => {
                    &&& f.wf()
                    &&& Some(f.holders) == read
                    &&& f.todo@ == unlisted(
                        f.holders@,
                        p.owner@,
                        paired(p.namespaces@.len(), f.holders@.len()),
                    )
                    &&& f.at == 0
                    &&& !f.retaken
                },
                None => true,
            },
    {
        let holders = match read {
            Some(h) => h,
            None => {
                return None;
            },
        };
        if shutting_down {
            return None;
        }
        let n: usize = if p.namespaces.len() < holders.len() {
            p.namespaces.len()
        } else {
            holders.len()
        };
        let mut todo: Vec<usize> = Vec::new();
        for i in 0..n
            invariant
                n == paired(p.namespaces@.len(), holders@.len()),
                todo@ == unlisted(holders@, p.owner@, i as nat),
        {
            if find_slot(&holders[i], &p.owner).is_none() {
                todo.push(i);
            }
        }
        Some(PathRefresh { holders, todo, at: 0, retaken: false })
    }

    /// What to do next.
    pub fn next(&self) -> (r: PathStep)
        requires
            self.wf(),
        ensures
            r == (if self.at < self.todo@.len() {
                PathStep::Reregister(self.todo@[self.at as int])
            } else if self.retaken {
                PathStep::Reread
            } else {
                PathStep::Settled
            }),
    {
        if self.at < self.todo.len() {
            PathStep::Reregister(self.todo[self.at])
        } else if self.retaken {
            PathStep::Reread
        } else {
            PathStep::Settled
        }
    }

    /// A registration was retaken, or refused. A namespace whose registration
    /// cannot be retaken keeps serving; it just stops contributing this target
    /// to its own holder list until the cluster takes it again.
    pub fn reregistered(&mut self, taken: bool)
        requires
            old(self).wf(),
            old(self).at < old(self).todo@.len(),
        ensures
            final(self).wf(),
            *final(self) == (PathRefresh {
                at: (old(self).at + 1) as usize,
                retaken: old(self).retaken || taken,
                ..*old(self)
            }),
    {
        let n: usize = self.todo.len();
        assert(self.at < n);
        self.at = self.at + 1;
        self.retaken = self.retaken || taken;
    }

    /// The holders were read again; a cluster that would not answer leaves the
    /// ones read before.
    pub fn reread(&mut self, read: Option<Vec<Vec<VdiHolder>>>)
        requires
            old(self).wf(),
        ensures
            final(self).wf(),
            *final(self) == (PathRefresh {
                holders: match read {
                    Some(h) => h,
                    None => old(self).holders,
                },
                retaken: false,
                ..*old(self)
            }),
    {
        if let Some(h) = read {
            self.holders = h;
        }
        self.retaken = false;
    }
}

/// A volume is registered for again exactly where the cluster does not list
/// this target.
pub proof fn lemma_retaken_where_unlisted(
    h: Seq<Vec<VdiHolder>>,
    owner: addr::Endpoint,
    k: nat,
    i: usize,
)
    requires
        k <= h.len(),
        k <= usize::MAX,
    ensures
        unlisted(h, owner, k).contains(i) <==> i < k && !lists(h[i as int]@, owner),
    decreases k,
{
    if k > 0 {
        lemma_retaken_where_unlisted(h, owner, (k - 1) as nat, i);
        let rest = unlisted(h, owner, (k - 1) as nat);
        if !lists(h[k - 1]@, owner) {
            let all = rest.push((k - 1) as usize);
            assert(all[rest.len() as int] == (k - 1) as usize);
            if rest.contains(i) {
                let x = choose|x: int| 0 <= x < rest.len() && rest[x] == i;
                assert(all[x] == i);
            }
            if all.contains(i) {
                let x = choose|x: int| 0 <= x < all.len() && all[x] == i;
                if x < rest.len() {
                    assert(rest[x] == i);
                }
            }
        }
    }
}

/// The slot this target goes by is one the cluster gave it, and among the
/// holders of the volume with the lowest vid of all: whoever else asks in the
/// same way asks about the same volume.
pub proof fn lemma_own_slot(v: Seq<ClusterNs>, h: Seq<Vec<VdiHolder>>, owner: addr::Endpoint)
    ensures
        own_slot(v, h, owner) matches Some(s) ==> {
            &&& forall|i: int| 0 <= i < v.len() && i < h.len() ==> s.vid <= (#[trigger] v[i]).vid
            &&& exists|i: int, j: int|
                0 <= i < v.len() && i < h.len() && 0 <= j < h[i]@.len() && (#[trigger] v[i]).vid
                    == s.vid && (#[trigger] h[i]@[j]).addr@ == owner && h[i]@[j].index == s.slot
        },
        own_slot(v, h, owner) is None ==> v.len() == 0 || h.len() == 0 || exists|i: int|
            0 <= i < v.len() && i < h.len() && !lists(#[trigger] h[i]@, owner) && (forall|j: int|
                0 <= j < v.len() && j < h.len() ==> v[i].vid <= (#[trigger] v[j]).vid),
{
    let n = paired(v.len(), h.len());
    if n > 0 {
        lemma_lowest(v, n);
        let i = lowest(v, n);
        lemma_slot_in(h[i]@, owner, 0);
        match slot_in(h[i]@, owner, 0) {
            Some(slot) => {
                let j = choose|j: int|
                    0 <= j < h[i]@.len() && (#[trigger] h[i]@[j]).addr@ == owner && h[i]@[j].index
                        == slot;
                assert(v[i].vid == v[i].vid && h[i]@[j].addr@ == owner);
            },
            None => {
                assert(!lists(h[i]@, owner));
            },
        }
    }
}

proof fn lemma_lowest(v: Seq<ClusterNs>, n: nat)
    requires
        1 <= n <= v.len(),
    ensures
        0 <= lowest(v, n) < n,
        forall|i: int| 0 <= i < n ==> v[lowest(v, n)].vid <= (#[trigger] v[i]).vid,
    decreases n,
{
    if n > 1 {
        lemma_lowest(v, (n - 1) as nat);
    }
}

proof fn lemma_slot_in(hs: Seq<VdiHolder>, owner: addr::Endpoint, j: int)
    requires
        0 <= j <= hs.len(),
    ensures
        match slot_in(hs, owner, j) {
            Some(slot) => exists|i: int|
                j <= i < hs.len() && (#[trigger] hs[i]).addr@ == owner && hs[i].index == slot,
            None => forall|i: int| j <= i < hs.len() ==> (#[trigger] hs[i]).addr@ != owner,
        },
    decreases hs.len() - j,
{
    if j < hs.len() && hs[j].addr@ != owner {
        lemma_slot_in(hs, owner, j + 1);
        if let Some(slot) = slot_in(hs, owner, j + 1) {
            let i = choose|i: int|
                j + 1 <= i < hs.len() && (#[trigger] hs[i]).addr@ == owner && hs[i].index == slot;
            assert(hs[i].addr@ == owner);
        }
    }
}

/// The volumes whose holders a path list is read from are those that were
/// registered for on that cluster, all of them and no others.
pub proof fn lemma_registered_on(
    registered: Seq<(ClusterNs, ClusterVdi)>,
    c: addr::Endpoint,
    k: nat,
    i: int,
)
    requires
        k <= registered.len(),
    ensures
        ({
            let r = registered_on(registered, c, k);
            &&& 0 <= i < k && registered[i].1.cluster@ == c ==> r.contains(registered[i].0)
            &&& forall|j: int|
                0 <= j < r.len() ==> exists|n: int|
                    0 <= n < k && (#[trigger] registered[n]).0 == #[trigger] r[j]
                        && registered[n].1.cluster@ == c
        }),
    decreases k,
{
    if k > 0 {
        let m = (k - 1) as nat;
        lemma_registered_on(registered, c, m, i);
        let rest = registered_on(registered, c, m);
        let r = registered_on(registered, c, k);
        if 0 <= i < k && registered[i].1.cluster@ == c {
            if i == m {
                assert(r[rest.len() as int] == registered[i].0);
            } else {
                let j = choose|j: int| 0 <= j < rest.len() && rest[j] == registered[i].0;
                assert(r[j] == registered[i].0);
            }
        }
        assert forall|j: int| 0 <= j < r.len() implies exists|n: int|
            0 <= n < k && (#[trigger] registered[n]).0 == #[trigger] r[j]
                && registered[n].1.cluster@ == c by {
            if j < rest.len() {
                assert(r[j] == rest[j]);
                let n = choose|n: int|
                    0 <= n < m && (#[trigger] registered[n]).0 == rest[j]
                        && registered[n].1.cluster@ == c;
                assert(registered[n].0 == r[j]);
            } else {
                assert(registered[m as int].0 == r[j]);
            }
        }
    }
}

/// Every path leads back to the target it stands for, over the transport of the
/// port, and no two of the first 65535 share a PORTID.
pub proof fn lemma_paths_lead_back(e: Seq<addr::Endpoint>, trtype: TransportType, i: int, j: int)
    requires
        0 <= i < e.len(),
        0 <= j < e.len(),
    ensures
        ({
            let p = path_list(e, trtype);
            &&& p.len() == e.len()
            &&& p[i].traddr == addr::ip_text(e[i].ip)
            &&& subsystem::endpoint_of(Some(e[i].ip), p[i].trsvcid) == Some(e[i])
            &&& p[i].trtype == trtype
            &&& i < j < 0xffff ==> p[i].portid < p[j].portid
        }),
{
    text::lemma_number_of_decimal(e[i].port as nat, 0xffff);
}

/// A subsystem is reached through every target that any of its volumes is
/// registered for, and through no other; where there is none it keeps the paths
/// it has. A host is told only of a list that changed, and then reads a log of a
/// new generation.
pub proof fn lemma_every_holder_is_a_path<B>(
    before: Subsystem<B>,
    after: Subsystem<B>,
    h: Seq<Vec<VdiHolder>>,
    trtype: TransportType,
    announce: bool,
    notify: bool,
)
    requires
        follows_holders(before, after, h, trtype, announce, notify),
    ensures
        (forall|e: addr::Endpoint| !registrants(h).contains(e)) ==> after == before && !notify,
        forall|e: addr::Endpoint| #[trigger]
            registrants(h).contains(e) ==> exists|i: int|
                0 <= i < subsystem::paths(after.ports@).len() && {
                    let p = #[trigger] subsystem::paths(after.ports@)[i];
                    p.traddr == addr::ip_text(e.ip) && p.trsvcid == text::decimal(e.port as nat)
                        && p.trtype == trtype
                },
        (exists|e: addr::Endpoint| registrants(h).contains(e)) ==> forall|i: int|
            0 <= i < subsystem::paths(after.ports@).len() ==> exists|e: addr::Endpoint| #[trigger]
                registrants(h).contains(e) && (#[trigger] subsystem::paths(after.ports@)[i]).traddr
                    == addr::ip_text(e.ip) && subsystem::paths(after.ports@)[i].trsvcid
                    == text::decimal(e.port as nat),
        notify ==> announce && subsystem::paths(after.ports@) != subsystem::paths(before.ports@)
            && after.disc_genctr != before.disc_genctr,
        !notify ==> after.disc_genctr == before.disc_genctr,
        after.hosts == before.hosts && after.namespaces == before.namespaces,
{
    let e = choose|e: Seq<addr::Endpoint>| #[trigger]
        in_order(e, h) && if e.len() == 0 {
            after == before && !notify
        } else {
            &&& subsystem::paths(after.ports@) == path_list(e, trtype)
            &&& notify == (announce && subsystem::paths(before.ports@) != path_list(e, trtype))
            &&& after == (Subsystem {
                ports: after.ports,
                disc_genctr: if notify {
                    before.disc_genctr.wrapping_add(1)
                } else {
                    before.disc_genctr
                },
                ..before
            })
        };
    let p = subsystem::paths(after.ports@);
    if e.len() > 0 {
        assert(e.to_set().contains(e[0]));
        assert(registrants(h).contains(e[0]));
        assert forall|i: int| 0 <= i < p.len() implies exists|x: addr::Endpoint| #[trigger]
            registrants(h).contains(x) && (#[trigger] p[i]).traddr == addr::ip_text(x.ip)
                && p[i].trsvcid == text::decimal(x.port as nat) by {
            assert(e.to_set().contains(e[i]));
            assert(registrants(h).contains(e[i]));
        }
    }
    assert forall|x: addr::Endpoint| #[trigger] registrants(h).contains(x) implies exists|i: int|
        0 <= i < p.len() && {
            let q = #[trigger] p[i];
            q.traddr == addr::ip_text(x.ip) && q.trsvcid == text::decimal(x.port as nat) && q.trtype
                == trtype
        } by {
        assert(e.to_set().contains(x));
        let i = choose|i: int| 0 <= i < e.len() && e[i] == x;
        assert(p[i].traddr == addr::ip_text(x.ip));
    }
}

/// A volume is told to have lost this target exactly where none of its holders is
/// at the target's address.
pub proof fn lemma_lost(h: Seq<Vec<VdiHolder>>, owner: addr::Endpoint, k: nat, i: usize)
    requires
        k <= h.len(),
        k <= usize::MAX,
    ensures
        unlisted(h, owner, k).contains(i) <==> i < k && forall|j: int|
            0 <= j < h[i as int]@.len() ==> (#[trigger] h[i as int]@[j]).addr@ != owner,
    decreases k,
{
    if k > 0 {
        let m = (k - 1) as nat;
        lemma_lost(h, owner, m, i);
        let rest = unlisted(h, owner, m);
        let all = unlisted(h, owner, k);
        if all.contains(i) {
            let x = choose|x: int| 0 <= x < all.len() && all[x] == i;
            if x < rest.len() {
                assert(rest[x] == i);
            }
        }
        if rest.contains(i) {
            let x = choose|x: int| 0 <= x < rest.len() && rest[x] == i;
            assert(all[x] == i);
        }
        if all.len() > rest.len() {
            assert(all[rest.len() as int] == (k - 1) as usize);
        }
        if i == k - 1 && lists(h[k - 1]@, owner) {
            let j = choose|j: int|
                0 <= j < h[k - 1]@.len() && (#[trigger] h[k - 1]@[j]).addr@ == owner;
            assert(h[i as int]@[j].addr@ == owner);
            assert(!all.contains(i)) by {
                if all.contains(i) {
                    assert(rest.contains(i));
                }
            }
        }
    }
}

} // verus!
