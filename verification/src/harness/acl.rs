//! Cluster ACLs: who the cluster says may connect, and which volumes it says a
//! subsystem is made of.

use vstd::prelude::*;

use crate::addr;
use crate::addr::SocketAddr;
use crate::backend::Backend;
use crate::cli;
use crate::cli::export_vdi;
use crate::config::NamespaceConfig;
use crate::harness::cluster;
use crate::harness::cluster::{ClusterAcl, Clusters, TakenUp};
use crate::harness::port;
use crate::harness::port::ClusterVdi;
use crate::nstable;
use crate::nstable::Namespace;
use crate::sheepdog::inode;
use crate::sheepdog::inode::{AclState, VdiInfo};
use crate::subsystem::{Subsystem, TransportType};
use crate::text;

verus! {

/// What an ACL object's state changed.
#[derive(Debug, Clone, Copy, PartialEq, Eq, Structural)]
pub struct AclChange {
    /// The discovery log moved: tell the hosts.
    pub discovery: bool,
    /// Other hosts may connect than before.
    pub hosts: bool,
}

/// Take one ACL object's member names into its subsystem's host ACL, and its
/// epoch into the subsystem's discovery-log generation.
///
/// A host dropped from the ACL keeps the controllers it already has; what
/// changes is who may Connect next.
pub fn refresh_cluster_acl<B: Backend>(s: &mut Subsystem<B>, state: &AclState) -> (r: AclChange)
    ensures
        r.discovery == (old(s).disc_genctr < state.epoch),
        r.hosts == (old(s).hosts@ != inode::members_rule(text::texts(state.hosts@))),
        final(s).hosts@ == inode::members_rule(text::texts(state.hosts@)),
        *final(s) == (Subsystem {
            hosts: final(s).hosts,
            disc_genctr: if r.discovery {
                state.epoch
            } else {
                old(s).disc_genctr
            },
            ..*old(s)
        }),
{
    let discovery: bool = s.observe_disc_genctr(state.epoch);
    let hosts: bool = s.set_host_acl(state.host_acl());
    AclChange { discovery, hosts }
}

/// Whether `vid` is a writable member. A snapshot's inode names the ACL too,
/// but a frozen VDI is read-only and not exported.
pub open spec fn wanted(members: Seq<VdiInfo>, vid: u32) -> bool {
    exists|j: int| 0 <= j < members.len() && !(#[trigger] members[j]).snapshot && members[j].vid == vid
}

/// Whether member `j` is the one that stands for its vid: the last writable one.
pub open spec fn stands(members: Seq<VdiInfo>, j: int) -> bool {
    &&& 0 <= j < members.len()
    &&& !members[j].snapshot
    &&& forall|i: int|
        j < i < members.len() ==> (#[trigger] members[i]).snapshot || members[i].vid
            != members[j].vid
}

/// Whether namespace `nsid` is on the cluster volume of `cluster`.
pub open spec fn from_cluster(
    origins: Seq<(u32, SocketAddr)>,
    nsid: u32,
    cluster: addr::Endpoint,
) -> bool {
    exists|i: int|
        0 <= i < origins.len() && (#[trigger] origins[i]).0 == nsid && origins[i].1@ == cluster
}

/// The namespaces of the first `k` to take back: those of this cluster that are
/// no member any more.
pub open spec fn removals<B>(
    listed: Seq<Namespace<B>>,
    origins: Seq<(u32, SocketAddr)>,
    members: Seq<VdiInfo>,
    cluster: addr::Endpoint,
    k: nat,
) -> Seq<u32>
    decreases k,
{
    if k == 0 {
        seq![]
    } else {
        let rest = removals(listed, origins, members, cluster, (k - 1) as nat);
        let nsid = listed[k - 1].nsid;
        if !wanted(members, nsid) && from_cluster(origins, nsid, cluster) {
            rest.push(nsid)
        } else {
            rest
        }
    }
}

/// Whether member `j` is to be exported: it stands for a vid that is no nsid
/// yet.
pub open spec fn addition<B>(
    table: Map<u32, Namespace<B>>,
    members: Seq<VdiInfo>,
    j: int,
) -> bool {
    stands(members, j) && !table.contains_key(members[j].vid)
}

/// What makes a subsystem match its ACL.
#[derive(Debug, PartialEq, Eq)]
pub struct NsPlan {
    /// The namespaces to remove, ascending.
    pub remove: Vec<u32>,
    /// The members to open and add, by their place, their vids ascending.
    pub open: Vec<usize>,
}

/// Whether `open` is the additions, their vids ascending.
pub open spec fn opens<B>(
    open: Seq<usize>,
    table: Map<u32, Namespace<B>>,
    members: Seq<VdiInfo>,
) -> bool {
    &&& forall|a: int|
        0 <= a < open.len() ==> addition(table, members, #[trigger] open[a] as int)
    &&& forall|a: int, b: int|
        0 <= a < b < open.len() ==> members[#[trigger] open[a] as int].vid < members[
        #[trigger] open[b] as int].vid
    &&& forall|j: usize| #[trigger]
        addition(table, members, j as int) ==> open.contains(j)
}

fn is_wanted(members: &Vec<VdiInfo>, vid: u32) -> (r: bool)
    ensures
        r == wanted(members@, vid),
{
    let n: usize = members.len();
    for j in 0..n
        invariant
            n == members@.len(),
            forall|i: int|
                0 <= i < j ==> (#[trigger] members@[i]).snapshot || members@[i].vid != vid,
    {
        if !members[j].snapshot && members[j].vid == vid {
            return true;
        }
    }
    false
}

fn does_stand(members: &Vec<VdiInfo>, j: usize) -> (r: bool)
    requires
        j < members@.len(),
    ensures
        r == stands(members@, j as int),
{
    if members[j].snapshot {
        return false;
    }
    let n: usize = members.len();
    let mut i: usize = j + 1;
    while i < n
        invariant
            j < i <= n == members@.len(),
            forall|x: int|
                j < x < i ==> (#[trigger] members@[x]).snapshot || members@[x].vid
                    != members@[j as int].vid,
        decreases n - i,
    {
        if !members[i].snapshot && members[i].vid == members[j].vid {
            return false;
        }
        i = i + 1;
    }
    true
}

fn is_from_cluster(origins: &Vec<(u32, SocketAddr)>, nsid: u32, cluster: &SocketAddr) -> (r: bool)
    ensures
        r == from_cluster(origins@, nsid, cluster@),
{
    let n: usize = origins.len();
    for j in 0..n
        invariant
            n == origins@.len(),
            forall|i: int|
                0 <= i < j ==> (#[trigger] origins@[i]).0 != nsid || origins@[i].1@ != cluster@,
    {
        if origins[j].0 == nsid && origins[j].1.same(cluster) {
            return true;
        }
    }
    false
}

fn insert_open(open: &mut Vec<usize>, members: &Vec<VdiInfo>, j: usize)
    requires
        j < members@.len(),
        forall|a: int| 0 <= a < old(open)@.len() ==> (#[trigger] old(open)@[a]) < members@.len(),
        forall|a: int, b: int|
            0 <= a < b < old(open)@.len() ==> members@[#[trigger] old(open)@[a] as int].vid
                < members@[#[trigger] old(open)@[b] as int].vid,
        forall|a: int|
            0 <= a < old(open)@.len() ==> members@[#[trigger] old(open)@[a] as int].vid
                != members@[j as int].vid,
    ensures
        forall|a: int, b: int|
            0 <= a < b < final(open)@.len() ==> members@[#[trigger] final(open)@[a] as int].vid
                < members@[#[trigger] final(open)@[b] as int].vid,
        forall|x: usize|
            final(open)@.contains(x) <==> old(open)@.contains(x) || x == j,
{
    let n: usize = open.len();
    let ghost was = open@;
    let mut at: usize = 0;
    while at < n && members[open[at]].vid < members[j].vid
        invariant
            at <= n == open@.len(),
            open@ == was,
            j < members@.len(),
            forall|a: int| 0 <= a < was.len() ==> (#[trigger] was[a]) < members@.len(),
            forall|a: int|
                0 <= a < at ==> members@[#[trigger] was[a] as int].vid < members@[j as int].vid,
        decreases n - at,
    {
        at = at + 1;
    }
    proof {
        assert forall|a: int| at <= a < n implies members@[#[trigger] was[a] as int].vid
            > members@[j as int].vid by {
            assert(members@[was[at as int] as int].vid > members@[j as int].vid);
        }
    }
    open.insert(at, j);
    proof {
        let now = open@;
        assert forall|a: int, b: int| 0 <= a < b < now.len() implies members@[
        #[trigger] now[a] as int].vid < members@[#[trigger] now[b] as int].vid by {
            let x = if a < at {
                a
            } else {
                a - 1
            };
            let y = if b < at {
                b
            } else {
                b - 1
            };
            if a != at && b != at {
                assert(members@[was[x] as int].vid < members@[was[y] as int].vid);
            } else if a == at {
                assert(members@[was[y] as int].vid > members@[j as int].vid);
            } else {
                assert(members@[was[x] as int].vid < members@[j as int].vid);
            }
        }
        assert forall|x: usize| now.contains(x) <==> was.contains(x) || x == j by {
            if now.contains(x) {
                let k = choose|k: int| 0 <= k < now.len() && now[k] == x;
                if k < at {
                    assert(was[k] == x);
                } else if k > at {
                    assert(was[k - 1] == x);
                }
            }
            if was.contains(x) {
                let k = choose|k: int| 0 <= k < was.len() && was[k] == x;
                if k < at {
                    assert(now[k] == x);
                } else {
                    assert(now[k + 1] == x);
                }
            }
            assert(now[at as int] == j);
        }
    }
}

/// What to add to and remove from a subsystem to match its ACL's member VDIs:
/// adding or removing a VDI on a running cluster changes what the subsystem
/// exports, exactly as it does at startup.
///
/// Only nsids this ACL could plausibly have added are ever removed: a namespace
/// added some other way is not this refresh's to take back.
pub fn refresh_cluster_namespaces<B: Backend>(
    s: &Subsystem<B>,
    origins: &Vec<(u32, SocketAddr)>,
    members: &Vec<VdiInfo>,
    cluster: &SocketAddr,
) -> (r: NsPlan)
    requires
        s.wf(),
    ensures
        r.remove@ == removals(
            s.namespaces.listed(),
            origins@,
            members@,
            cluster@,
            s.namespaces.listed().len(),
        ),
        opens(r.open@, s.namespaces@, members@),
{
    let mut remove: Vec<u32> = Vec::new();
    let entries = s.namespaces.entries();
    let n: usize = entries.len();
    for i in 0..n
        invariant
            n == entries@.len(),
            remove@ == removals(entries@, origins@, members@, cluster@, i as nat),
    {
        let nsid: u32 = entries[i].nsid;
        if !is_wanted(members, nsid) && is_from_cluster(origins, nsid, cluster) {
            remove.push(nsid);
        }
    }
    let mut open: Vec<usize> = Vec::new();
    let m: usize = members.len();
    for j in 0..m
        invariant
            m == members@.len(),
            s.wf(),
            forall|a: int|
                0 <= a < open@.len() ==> open@[a] < j && addition(
                    s.namespaces@,
                    members@,
                    #[trigger] open@[a] as int,
                ),
            forall|a: int, b: int|
                0 <= a < b < open@.len() ==> members@[#[trigger] open@[a] as int].vid < members@[
                #[trigger] open@[b] as int].vid,
            forall|i: usize|
                i < j && #[trigger] addition(s.namespaces@, members@, i as int)
                    ==> open@.contains(i),
    {
        if does_stand(members, j) && !s.namespaces.contains_key(members[j].vid) {
            let ghost was = open@;
            proof {
                assert forall|a: int| 0 <= a < open@.len() implies members@[
                #[trigger] open@[a] as int].vid != members@[j as int].vid by {
                    assert(addition(s.namespaces@, members@, open@[a] as int));
                    assert(members@[j as int].snapshot || members@[j as int].vid
                        != members@[open@[a] as int].vid);
                }
            }
            insert_open(&mut open, members, j);
            proof {
                assert forall|a: int| 0 <= a < open@.len() implies open@[a] < j + 1 && addition(
                    s.namespaces@,
                    members@,
                    #[trigger] open@[a] as int,
                ) by {
                    assert(open@.contains(open@[a]));
                    if was.contains(open@[a]) {
                        let k = choose|k: int| 0 <= k < was.len() && was[k] == open@[a];
                        assert(addition(s.namespaces@, members@, was[k] as int));
                    }
                }
            }
        }
    }
    NsPlan { remove, open }
}

/// The namespace that exports the member `vdi`. Whole-cluster mode names the
/// subsystem after the ACL verbatim, so the subsystem's own NQN *is* the ACL's
/// name.
pub fn member_namespace(acl: &ClusterAcl, nqn: &str, vdi: &VdiInfo) -> (r: NamespaceConfig)
    ensures
        r@ == cli::vdi_namespace(addr::endpoint_text(acl.cluster@), nqn@, acl.lock, vdi@),
{
    let gateway: String = acl.cluster.to_text();
    export_vdi(gateway.as_str(), nqn, acl.lock, vdi)
}

/// Add a namespace that was just opened, and made with the subsystem's ANA
/// states, to the subsystem and to its tracking.
pub fn export<B: Backend>(
    clusters: &mut Clusters,
    s: &mut Subsystem<B>,
    subsystem: u64,
    ns: Namespace<B>,
    vdi: ClusterVdi,
    trtype: TransportType,
) -> (r: Result<TakenUp, String>)
    requires
        old(s).wf(),
        nstable::is_new(old(s).namespaces@, ns, old(s).ana_states@.len()),
    ensures
        final(s).wf(),
        r is Ok <==> !old(s).namespaces@.contains_key(ns.nsid),
        match r {
            Ok(t) => {
                &&& final(s).namespaces@ == old(s).namespaces@.insert(ns.nsid, ns)
                &&& *final(s) == (Subsystem {
                    namespaces: final(s).namespaces,
                    generation: old(s).generation.wrapping_add(1),
                    ..*old(s)
                })
                &&& cluster::taken_up(
                    *old(clusters),
                    *final(clusters),
                    subsystem,
                    port::cluster_ns(ns.nsid, ns.cell, vdi),
                    vdi,
                    trtype,
                    t,
                )
            },
            Err(m) => {
                &&& m@ == "nsid "@ + text::decimal(ns.nsid as nat) + " already exists"@
                &&& *final(s) == *old(s)
                &&& *final(clusters) == *old(clusters)
            },
        },
{
    let nsid: u32 = ns.nsid;
    let cell: usize = ns.cell;
    match s.add_namespace(ns) {
        Ok(_) => Ok(clusters.track_cluster_backend(subsystem, nsid, cell, vdi, trtype)),
        Err(m) => Err(m),
    }
}

/// The table after the whole of a plan went through.
pub open spec fn nsids_after<B>(
    before: Map<u32, Namespace<B>>,
    remove: Seq<u32>,
    open: Seq<usize>,
    members: Seq<VdiInfo>,
    nsid: u32,
) -> bool {
    before.contains_key(nsid) && !remove.contains(nsid) || exists|a: int|
        0 <= a < open.len() && members[#[trigger] open[a] as int].vid == nsid
}

/// A plan that went through leaves the subsystem with every writable member of
/// its ACL, and of this cluster with nothing else; what came from elsewhere is
/// still there.
pub proof fn lemma_plan_matches_acl<B>(
    s: Subsystem<B>,
    origins: Seq<(u32, SocketAddr)>,
    members: Seq<VdiInfo>,
    c: addr::Endpoint,
    open: Seq<usize>,
    nsid: u32,
)
    requires
        s.wf(),
        members.len() <= usize::MAX,
        opens(open, s.namespaces@, members),
    ensures
        ({
            let remove = removals(
                s.namespaces.listed(),
                origins,
                members,
                c,
                s.namespaces.listed().len(),
            );
            let after = nsids_after(s.namespaces@, remove, open, members, nsid);
            &&& wanted(members, nsid) ==> after
            &&& after && from_cluster(origins, nsid, c) ==> wanted(members, nsid)
            &&& s.namespaces@.contains_key(nsid) && !from_cluster(origins, nsid, c) ==> after
        }),
{
    let listed = s.namespaces.listed();
    let remove = removals(listed, origins, members, c, listed.len());
    s.namespaces.lemma_listed();
    lemma_removals(listed, origins, members, c, listed.len(), nsid);
    if wanted(members, nsid) {
        lemma_one_stands(members, nsid, members.len());
        let j = choose|j: int| stands(members, j) && #[trigger] members[j].vid == nsid;
        if !s.namespaces@.contains_key(nsid) {
            assert(addition(s.namespaces@, members, j as usize as int));
            assert(open.contains(j as usize));
            let a = choose|a: int| 0 <= a < open.len() && open[a] == j as usize;
            assert(members[open[a] as int].vid == nsid);
        }
    }
    if exists|a: int| 0 <= a < open.len() && members[#[trigger] open[a] as int].vid == nsid {
        let a = choose|a: int| 0 <= a < open.len() && members[#[trigger] open[a] as int].vid == nsid;
        assert(addition(s.namespaces@, members, open[a] as int));
        assert(!members[open[a] as int].snapshot);
    }
}

proof fn lemma_removals<B>(
    listed: Seq<Namespace<B>>,
    origins: Seq<(u32, SocketAddr)>,
    members: Seq<VdiInfo>,
    c: addr::Endpoint,
    k: nat,
    nsid: u32,
)
    requires
        k <= listed.len(),
    ensures
        removals(listed, origins, members, c, k).contains(nsid) <==> !wanted(members, nsid)
            && from_cluster(origins, nsid, c) && exists|i: int|
            0 <= i < k && (#[trigger] listed[i]).nsid == nsid,
    decreases k,
{
    if k > 0 {
        lemma_removals(listed, origins, members, c, (k - 1) as nat, nsid);
        let rest = removals(listed, origins, members, c, (k - 1) as nat);
        let id = listed[k - 1].nsid;
        if !wanted(members, id) && from_cluster(origins, id, c) {
            let all = rest.push(id);
            assert(all.contains(nsid) <==> rest.contains(nsid) || id == nsid) by {
                if all.contains(nsid) {
                    let i = choose|i: int| 0 <= i < all.len() && all[i] == nsid;
                    if i < rest.len() {
                        assert(rest[i] == nsid);
                    }
                }
                if rest.contains(nsid) {
                    let i = choose|i: int| 0 <= i < rest.len() && rest[i] == nsid;
                    assert(all[i] == nsid);
                }
                assert(all[rest.len() as int] == id);
            }
        }
    }
}

/// A wanted vid has a member among the first `k` that stands for it, if it has a
/// writable one there.
proof fn lemma_one_stands(members: Seq<VdiInfo>, vid: u32, k: nat)
    requires
        k <= members.len(),
        exists|j: int|
            0 <= j < k && !(#[trigger] members[j]).snapshot && members[j].vid == vid,
        forall|j: int|
            k <= j < members.len() ==> (#[trigger] members[j]).snapshot || members[j].vid != vid,
    ensures
        exists|j: int| stands(members, j) && #[trigger] members[j].vid == vid,
    decreases k,
{
    let last = members[k - 1];
    if !last.snapshot && last.vid == vid {
        assert(stands(members, k - 1));
    } else {
        lemma_one_stands(members, vid, (k - 1) as nat);
    }
}

/// After a plan that went through, a number of this cluster is a namespace
/// exactly where some VDI that is no snapshot has that id, and no snapshot was
/// opened; the volumes are opened in the order of their ids, none twice.
pub proof fn lemma_plan_exports_heads<B>(
    s: Subsystem<B>,
    origins: Seq<(u32, SocketAddr)>,
    members: Seq<VdiInfo>,
    c: addr::Endpoint,
    open: Seq<usize>,
    nsid: u32,
)
    requires
        s.wf(),
        members.len() <= usize::MAX,
        opens(open, s.namespaces@, members),
    ensures
        ({
            let remove = removals(
                s.namespaces.listed(),
                origins,
                members,
                c,
                s.namespaces.listed().len(),
            );
            let kept = s.namespaces@.contains_key(nsid) && !remove.contains(nsid);
            let opened = exists|a: int|
                0 <= a < open.len() && members[#[trigger] open[a] as int].vid == nsid;
            let head = exists|j: int|
                0 <= j < members.len() && (#[trigger] members[j]).vid == nsid
                    && !members[j].snapshot;
            let here = exists|i: int|
                0 <= i < origins.len() && (#[trigger] origins[i]).0 == nsid && origins[i].1@ == c;
            &&& head ==> kept || opened
            &&& here && !head ==> !kept && !opened
            &&& remove.contains(nsid) ==> here && !head && s.namespaces@.contains_key(nsid)
            &&& opened ==> head && !s.namespaces@.contains_key(nsid)
            &&& forall|a: int|
                0 <= a < open.len() ==> (#[trigger] open[a]) < members.len()
                    && !members[open[a] as int].snapshot
            &&& forall|a: int, b: int|
                0 <= a < b < open.len() ==> members[#[trigger] open[a] as int].vid < members[
                #[trigger] open[b] as int].vid
        }),
{
    lemma_plan_matches_acl(s, origins, members, c, open, nsid);
    let listed = s.namespaces.listed();
    s.namespaces.lemma_listed();
    lemma_removals(listed, origins, members, c, listed.len(), nsid);
    assert forall|a: int| 0 <= a < open.len() implies (#[trigger] open[a]) < members.len()
        && !members[open[a] as int].snapshot by {
        assert(addition(s.namespaces@, members, open[a] as int));
    }
    if exists|a: int| 0 <= a < open.len() && members[#[trigger] open[a] as int].vid == nsid {
        let a = choose|a: int| 0 <= a < open.len() && members[#[trigger] open[a] as int].vid == nsid;
        assert(addition(s.namespaces@, members, open[a] as int));
        assert(members[open[a] as int].vid == nsid);
    }
}

} // verus!
