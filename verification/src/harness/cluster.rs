//! What is kept up with the clusters behind a target: the path lists, the ANA
//! placement and the ACL objects of its subsystems.

use vstd::prelude::*;

use crate::addr::SocketAddr;
use crate::harness::paths::ClusterPaths;
use crate::harness::port;
use crate::harness::port::{AclSpec, AnaSpec, ClusterNs, ClusterVdi};
use crate::subsystem::TransportType;

verus! {

/// Seconds between two refreshes. All of it is a cold path — a target joining
/// or leaving is rare, a volume's objects move only on a cluster rebalance, and
/// an ACL is edited by an administrator typing — so this only has to be well
/// inside the time a host takes to notice.
pub const CLUSTER_REFRESH_INTERVAL_SECS: u64 = 10;

/// One subsystem's cluster namespaces on one cluster, whose ANA state is
/// reported.
#[derive(Debug)]
pub struct ClusterAna {
    /// The cluster gateway those namespaces are served through.
    pub cluster: SocketAddr,
    /// The subsystem they belong to; the one whose ANA state they are.
    pub subsystem: u64,
    /// The namespaces.
    pub namespaces: Vec<ClusterNs>,
}

/// One subsystem that *is* the export of a cluster ACL object.
///
/// Three things ride on the same ACL inode and so the same refresh: the host
/// list, the discovery-log generation, and — since the ACL's member VDIs are
/// exactly this subsystem's namespaces — the namespace table itself.
#[derive(Debug, Clone, Copy)]
pub struct ClusterAcl {
    /// The cluster.
    pub cluster: SocketAddr,
    /// The ACL object.
    pub vid: u32,
    /// The subsystem it is exported as.
    pub subsystem: u64,
    /// Open its volumes under the cluster's VDI lock.
    pub lock: bool,
    /// This target's fabric address.
    pub fabric: SocketAddr,
    /// Whether connections receive into provided-buffer rings.
    pub ring_enabled: bool,
    /// Transport of the port.
    pub trtype: TransportType,
}

/// Everything that is refreshed.
#[derive(Debug)]
pub struct Clusters {
    /// Every subsystem with cluster-backed paths.
    pub paths: Vec<ClusterPaths>,
    /// Every subsystem reporting cluster-derived ANA.
    pub ana: Vec<ClusterAna>,
    /// Every subsystem that is an ACL's export.
    pub acls: Vec<ClusterAcl>,
}

/// One thing to refresh, by its place.
#[derive(Debug, Clone, Copy, PartialEq, Eq, Structural)]
pub enum Visit {
    /// A path list.
    Paths(usize),
    /// An ANA placement.
    Ana(usize),
    /// An ACL object.
    Acl(usize),
}

/// What one refresh of everything visits: the path lists, then the ANA
/// placement, then the ACL objects.
pub open spec fn visits(paths: nat, ana: nat, acls: nat) -> Seq<Visit> {
    Seq::new(paths, |i: int| Visit::Paths(i as usize)) + Seq::new(
        ana,
        |i: int| Visit::Ana(i as usize),
    ) + Seq::new(acls, |i: int| Visit::Acl(i as usize))
}

/// Visit every tracked cluster: what to re-derive now, in order.
///
/// Nothing at all once a shutdown has begun: there is no point re-reading state
/// that is being released, and the refresh thread takes that as its cue to end.
pub fn refresh_clusters(clusters: &Clusters, shutting_down: bool) -> (r: Vec<Visit>)
    ensures
        r@ == (if shutting_down {
            Seq::<Visit>::empty()
        } else {
            visits(clusters.paths@.len(), clusters.ana@.len(), clusters.acls@.len())
        }),
{
    let mut r: Vec<Visit> = Vec::new();
    if shutting_down {
        return r;
    }
    let p: usize = clusters.paths.len();
    let a: usize = clusters.ana.len();
    let c: usize = clusters.acls.len();
    let ghost all = visits(p as nat, a as nat, c as nat);
    for i in 0..p
        invariant
            all == visits(p as nat, a as nat, c as nat),
            r@ =~= all.take(i as int),
    {
        r.push(Visit::Paths(i));
    }
    for i in 0..a
        invariant
            all == visits(p as nat, a as nat, c as nat),
            r@ =~= all.take(p + i),
    {
        r.push(Visit::Ana(i));
    }
    for i in 0..c
        invariant
            all == visits(p as nat, a as nat, c as nat),
            r@ =~= all.take(p + a + i),
    {
        r.push(Visit::Acl(i));
    }
    assert(all.take(p + a + c) =~= all);
    r
}

/// The first place from `i` on where `keys` holds `key`.
pub open spec fn place_of(keys: Seq<u64>, key: u64, i: int) -> Option<int>
    decreases keys.len() - i,
{
    if i < 0 || i >= keys.len() {
        None
    } else if keys[i] == key {
        Some(i)
    } else {
        place_of(keys, key, i + 1)
    }
}

/// The subsystems of `v`.
pub open spec fn path_keys(v: Seq<ClusterPaths>) -> Seq<u64> {
    Seq::new(v.len(), |i: int| v[i].subsystem)
}

/// The subsystems of `v`.
pub open spec fn ana_keys(v: Seq<ClusterAna>) -> Seq<u64> {
    Seq::new(v.len(), |i: int| v[i].subsystem)
}

/// `list` without the namespaces on `volume`.
pub open spec fn without(list: Seq<ClusterNs>, volume: u64) -> Seq<ClusterNs>
    decreases list.len(),
{
    if list.len() == 0 {
        list
    } else {
        let rest = without(list.drop_last(), volume);
        if list.last().volume == volume {
            rest
        } else {
            rest.push(list.last())
        }
    }
}

fn drop_volume(list: &Vec<ClusterNs>, volume: u64) -> (r: Vec<ClusterNs>)
    ensures
        r@ == without(list@, volume),
{
    let mut r: Vec<ClusterNs> = Vec::new();
    let n: usize = list.len();
    for i in 0..n
        invariant
            n == list@.len(),
            r@ == without(list@.take(i as int), volume),
    {
        if list[i].volume != volume {
            r.push(list[i]);
        }
        assert(list@.take(i + 1).drop_last() =~= list@.take(i as int));
    }
    assert(list@.take(n as int) =~= list@);
    r
}

/// Whether `b` is `a` with the namespaces `list`.
pub open spec fn paths_with(a: ClusterPaths, b: ClusterPaths, list: Seq<ClusterNs>) -> bool {
    &&& b.cluster == a.cluster
    &&& b.owner == a.owner
    &&& b.trtype == a.trtype
    &&& b.subsystem == a.subsystem
    &&& b.namespaces@ == list
}

/// Whether `b` is `a` with the namespaces `list`.
pub open spec fn ana_with(a: ClusterAna, b: ClusterAna, list: Seq<ClusterNs>) -> bool {
    &&& b.cluster == a.cluster
    &&& b.subsystem == a.subsystem
    &&& b.namespaces@ == list
}

/// Whether only the entry at `at` differs, and has the namespaces `list`.
pub open spec fn path_relisted(
    before: Seq<ClusterPaths>,
    after: Seq<ClusterPaths>,
    at: int,
    list: Seq<ClusterNs>,
) -> bool {
    &&& after.len() == before.len()
    &&& paths_with(before[at], after[at], list)
    &&& forall|i: int| 0 <= i < before.len() && i != at ==> #[trigger] after[i] == before[i]
}

/// Whether only the entry at `at` differs, and has the namespaces `list`.
pub open spec fn ana_relisted(
    before: Seq<ClusterAna>,
    after: Seq<ClusterAna>,
    at: int,
    list: Seq<ClusterNs>,
) -> bool {
    &&& after.len() == before.len()
    &&& ana_with(before[at], after[at], list)
    &&& forall|i: int| 0 <= i < before.len() && i != at ==> #[trigger] after[i] == before[i]
}

/// What taking up a namespace needs of the caller.
#[derive(Debug, Clone, Copy, PartialEq, Eq, Structural)]
pub struct TakenUp {
    /// The subsystem's path entry is new, the last of the list: seed it.
    pub fresh_paths: bool,
    /// The subsystem's ANA entry took the namespace. A subsystem that had no
    /// cluster namespace at startup has none, and ANA for this one needs a
    /// restart.
    pub ana: bool,
}

/// The path entries after the namespace `ns` on the volume `vdi` was taken up: a
/// registered one joins the subsystem's entry, or makes one.
pub open spec fn paths_joined(
    before: Seq<ClusterPaths>,
    after: Seq<ClusterPaths>,
    subsystem: u64,
    ns: ClusterNs,
    vdi: ClusterVdi,
    trtype: TransportType,
) -> bool {
    match vdi.owner {
        None => after == before,
        Some(owner) => match place_of(path_keys(before), subsystem, 0) {
            Some(at) => path_relisted(
                before,
                after,
                at,
                before[at].namespaces@.push(ns),
            ),
            None => {
                &&& after.len() == before.len() + 1
                &&& after.drop_last() == before
                &&& after.last().cluster == vdi.cluster
                &&& after.last().owner == owner
                &&& after.last().namespaces@ == seq![ns]
                &&& after.last().trtype == trtype
                &&& after.last().subsystem == subsystem
            },
        },
    }
}

/// Whether `after` is `before` with the namespace `ns` on `vdi` taken up for its
/// subsystem, and `r` what that needs of the caller.
pub open spec fn taken_up(
    before: Clusters,
    after: Clusters,
    subsystem: u64,
    ns: ClusterNs,
    vdi: ClusterVdi,
    trtype: TransportType,
    r: TakenUp,
) -> bool {
    &&& r.fresh_paths == (vdi.owner is Some && place_of(
        path_keys(before.paths@),
        subsystem,
        0,
    ) is None)
    &&& r.ana == (place_of(ana_keys(before.ana@), subsystem, 0) is Some)
    &&& paths_joined(before.paths@, after.paths@, subsystem, ns, vdi, trtype)
    &&& match place_of(ana_keys(before.ana@), subsystem, 0) {
        Some(at) => ana_relisted(
            before.ana@,
            after.ana@,
            at,
            before.ana@[at].namespaces@.push(ns),
        ),
        None => after.ana@ == before.ana@,
    }
    &&& after.acls == before.acls
}

/// Whether `after` is `before` with the opened volume `volume` dropped from the
/// tracking of its subsystem.
pub open spec fn untracked(before: Clusters, after: Clusters, subsystem: u64, volume: u64) -> bool {
    &&& match place_of(path_keys(before.paths@), subsystem, 0) {
        Some(at) => path_relisted(
            before.paths@,
            after.paths@,
            at,
            without(before.paths@[at].namespaces@, volume),
        ),
        None => after.paths@ == before.paths@,
    }
    &&& match place_of(ana_keys(before.ana@), subsystem, 0) {
        Some(at) => ana_relisted(
            before.ana@,
            after.ana@,
            at,
            without(before.ana@[at].namespaces@, volume),
        ),
        None => after.ana@ == before.ana@,
    }
    &&& after.acls == before.acls
}

impl Clusters {
    /// Nothing tracked.
    pub fn new() -> (r: Clusters)
        ensures
            r.paths@.len() == 0,
            r.ana@.len() == 0,
            r.acls@.len() == 0,
    {
        Clusters { paths: Vec::new(), ana: Vec::new(), acls: Vec::new() }
    }

    /// Keep a path list up.
    pub fn track_paths(&mut self, paths: ClusterPaths)
        ensures
            final(self).paths@ == old(self).paths@.push(paths),
            final(self).ana == old(self).ana,
            final(self).acls == old(self).acls,
    {
        self.paths.push(paths);
    }

    /// Keep an ANA placement up.
    pub fn track_cluster_ana(&mut self, spec: AnaSpec, subsystem: u64)
        ensures
            final(self).ana@ == old(self).ana@.push(
                ClusterAna {
                    cluster: spec.cluster,
                    subsystem,
                    namespaces: spec.namespaces,
                },
            ),
            final(self).paths == old(self).paths,
            final(self).acls == old(self).acls,
    {
        self.ana.push(
            ClusterAna { cluster: spec.cluster, subsystem, namespaces: spec.namespaces },
        );
    }

    /// Keep a subsystem up with the ACL object it is the export of.
    pub fn track_cluster_acl(&mut self, spec: AclSpec, subsystem: u64)
        ensures
            final(self).acls@ == old(self).acls@.push(
                ClusterAcl {
                    cluster: spec.acl.cluster,
                    vid: spec.acl.vid,
                    subsystem,
                    lock: spec.acl.lock,
                    fabric: spec.fabric,
                    ring_enabled: spec.ring_enabled,
                    trtype: spec.trtype,
                },
            ),
            final(self).paths == old(self).paths,
            final(self).ana == old(self).ana,
    {
        self.acls.push(
            ClusterAcl {
                cluster: spec.acl.cluster,
                vid: spec.acl.vid,
                subsystem,
                lock: spec.acl.lock,
                fabric: spec.fabric,
                ring_enabled: spec.ring_enabled,
                trtype: spec.trtype,
            },
        );
    }

    /// Stop tracking everything, on the way into a shutdown's release phase:
    /// nothing re-registers a volume behind the backend that is about to hand it
    /// back.
    pub fn stop_cluster_refresh(&mut self)
        ensures
            final(self).paths@.len() == 0,
            final(self).ana@.len() == 0,
            final(self).acls@.len() == 0,
    {
        self.paths = Vec::new();
        self.ana = Vec::new();
        self.acls = Vec::new();
    }

    fn path_place(&self, subsystem: u64) -> (r: Option<usize>)
        ensures
            match place_of(path_keys(self.paths@), subsystem, 0) {
                Some(i) => r is Some && r->0 == i && 0 <= i < self.paths@.len(),
                None => r is None,
            },
    {
        let n: usize = self.paths.len();
        let mut i: usize = 0;
        while i < n
            invariant
                i <= n == self.paths@.len(),
                place_of(path_keys(self.paths@), subsystem, 0) == place_of(
                    path_keys(self.paths@),
                    subsystem,
                    i as int,
                ),
            decreases n - i,
        {
            if self.paths[i].subsystem == subsystem {
                return Some(i);
            }
            i = i + 1;
        }
        None
    }

    fn ana_place(&self, subsystem: u64) -> (r: Option<usize>)
        ensures
            match place_of(ana_keys(self.ana@), subsystem, 0) {
                Some(i) => r is Some && r->0 == i && 0 <= i < self.ana@.len(),
                None => r is None,
            },
    {
        let n: usize = self.ana.len();
        let mut i: usize = 0;
        while i < n
            invariant
                i <= n == self.ana@.len(),
                place_of(ana_keys(self.ana@), subsystem, 0) == place_of(
                    ana_keys(self.ana@),
                    subsystem,
                    i as int,
                ),
            decreases n - i,
        {
            if self.ana[i].subsystem == subsystem {
                return Some(i);
            }
            i = i + 1;
        }
        None
    }

    /// Add a namespace that was just opened, whose ANA state is in `cell`, to its
    /// subsystem's path and ANA tracking, alongside every namespace opened at startup — otherwise a
    /// hot-added volume would be listed but never contribute a discovery-log
    /// path or ever get an ANA state past its placeholder.
    pub fn track_cluster_backend(
        &mut self,
        subsystem: u64,
        nsid: u32,
        cell: usize,
        vdi: ClusterVdi,
        trtype: TransportType,
    ) -> (r: TakenUp)
        ensures
            taken_up(
                *old(self),
                *final(self),
                subsystem,
                port::cluster_ns(nsid, cell, vdi),
                vdi,
                trtype,
                r,
            ),
    {
        let ns = ClusterNs { nsid, cell, volume: vdi.volume, vid: vdi.vid };
        let mut fresh_paths: bool = false;
        if let Some(owner) = vdi.owner {
            match self.path_place(subsystem) {
                Some(at) => {
                    self.paths[at].namespaces.push(ns);
                },
                None => {
                    let mut namespaces: Vec<ClusterNs> = Vec::new();
                    namespaces.push(ns);
                    assert(namespaces@ =~= seq![ns]);
                    self.paths.push(
                        ClusterPaths { cluster: vdi.cluster, owner, namespaces, trtype, subsystem },
                    );
                    assert(self.paths@.drop_last() =~= old(self).paths@);
                    fresh_paths = true;
                },
            }
        }
        let ana: bool = match self.ana_place(subsystem) {
            Some(at) => {
                self.ana[at].namespaces.push(ns);
                true
            },
            None => false,
        };
        TakenUp { fresh_paths, ana }
    }

    /// Drop an opened volume from its subsystem's path and ANA tracking, so that
    /// a namespace just removed does not linger in either refresh. Another
    /// namespace of the same id, on a volume of its own, stays.
    pub fn untrack_cluster_backend(&mut self, subsystem: u64, volume: u64)
        ensures
            untracked(*old(self), *final(self), subsystem, volume),
    {
        if let Some(at) = self.path_place(subsystem) {
            let left = drop_volume(&self.paths[at].namespaces, volume);
            self.paths[at].namespaces = left;
        }
        if let Some(at) = self.ana_place(subsystem) {
            let left = drop_volume(&self.ana[at].namespaces, volume);
            self.ana[at].namespaces = left;
        }
    }
}

/// Once everything is untracked a refresh visits nothing, whether or not it
/// knows of the shutdown.
pub proof fn lemma_stopped_visits_nothing(clusters: Clusters)
    requires
        clusters.paths@.len() == 0,
        clusters.ana@.len() == 0,
        clusters.acls@.len() == 0,
    ensures
        visits(clusters.paths@.len(), clusters.ana@.len(), clusters.acls@.len()) == Seq::<
            Visit,
        >::empty(),
{
}

/// A volume that is dropped is tracked no more, every other one is, and dropping
/// one just taken up leaves the list as it was.
pub proof fn lemma_untracked(list: Seq<ClusterNs>, ns: ClusterNs, other: ClusterNs)
    ensures
        without(list, ns.volume).contains(other) <==> list.contains(other) && other.volume != ns.volume,
        (forall|i: int| 0 <= i < list.len() ==> (#[trigger] list[i]).volume != ns.volume)
            ==> without(list.push(ns), ns.volume) == list,
    decreases list.len(),
{
    lemma_without(list, ns.volume, other);
    assert(list.push(ns).drop_last() =~= list);
    if forall|i: int| 0 <= i < list.len() ==> (#[trigger] list[i]).volume != ns.volume {
        lemma_without_absent(list, ns.volume);
    }
}

proof fn lemma_without_absent(list: Seq<ClusterNs>, volume: u64)
    requires
        forall|i: int| 0 <= i < list.len() ==> (#[trigger] list[i]).volume != volume,
    ensures
        without(list, volume) == list,
    decreases list.len(),
{
    if list.len() > 0 {
        assert forall|i: int| 0 <= i < list.drop_last().len() implies (
        #[trigger] list.drop_last()[i]).volume != volume by {
            assert(list[i].volume != volume);
        }
        lemma_without_absent(list.drop_last(), volume);
        assert(list.drop_last().push(list.last()) =~= list);
    }
}

proof fn lemma_without(list: Seq<ClusterNs>, volume: u64, other: ClusterNs)
    ensures
        without(list, volume).contains(other) <==> list.contains(other) && other.volume != volume,
    decreases list.len(),
{
    if list.len() > 0 {
        let short = list.drop_last();
        lemma_without(short, volume, other);
        let rest = without(short, volume);
        assert(list.contains(other) <==> short.contains(other) || list.last() == other) by {
            if list.contains(other) {
                let i = choose|i: int| 0 <= i < list.len() && list[i] == other;
                if i < short.len() {
                    assert(short[i] == other);
                }
            }
            if short.contains(other) {
                let i = choose|i: int| 0 <= i < short.len() && short[i] == other;
                assert(list[i] == other);
            }
            assert(list[list.len() - 1] == list.last());
        }
        let all = rest.push(list.last());
        assert(all.contains(other) <==> rest.contains(other) || list.last() == other) by {
            if all.contains(other) {
                let i = choose|i: int| 0 <= i < all.len() && all[i] == other;
                if i < rest.len() {
                    assert(rest[i] == other);
                }
            }
            if rest.contains(other) {
                let i = choose|i: int| 0 <= i < rest.len() && rest[i] == other;
                assert(all[i] == other);
            }
            assert(all[rest.len() as int] == list.last());
        }
    }
}

/// A refresh visits everything there is to refresh and nothing else, once each,
/// the path lists before the placement and that before the ACL objects.
pub proof fn lemma_visits(paths: nat, ana: nat, acls: nat, i: int)
    requires
        paths <= usize::MAX,
        ana <= usize::MAX,
        acls <= usize::MAX,
    ensures
        ({
            let v = visits(paths, ana, acls);
            &&& v.len() == paths + ana + acls
            &&& 0 <= i < paths ==> v[i] == Visit::Paths(i as usize)
            &&& 0 <= i < ana ==> v[paths + i] == Visit::Ana(i as usize)
            &&& 0 <= i < acls ==> v[paths + ana + i] == Visit::Acl(i as usize)
        }),
{
}

proof fn lemma_place_of(keys: Seq<u64>, key: u64, i: int)
    requires
        0 <= i,
    ensures
        match place_of(keys, key, i) {
            Some(k) => i <= k < keys.len() && keys[k] == key && forall|j: int|
                i <= j < k ==> keys[j] != key,
            None => forall|j: int| i <= j < keys.len() ==> keys[j] != key,
        },
    decreases keys.len() - i,
{
    if i < keys.len() && keys[i] != key {
        lemma_place_of(keys, key, i + 1);
    }
}

/// A namespace that was taken up is tracked for its subsystem: among its paths if
/// the volume was registered for, and not otherwise, and among its placements if
/// there are any. No namespace that was tracked is lost, and no other subsystem
/// notices.
pub proof fn lemma_taken_up(
    before: Clusters,
    after: Clusters,
    subsystem: u64,
    ns: ClusterNs,
    vdi: ClusterVdi,
    trtype: TransportType,
    r: TakenUp,
    i: int,
)
    requires
        taken_up(before, after, subsystem, ns, vdi, trtype, r),
    ensures
        vdi.owner is Some ==> exists|k: int|
            0 <= k < after.paths@.len() && (#[trigger] after.paths@[k]).subsystem == subsystem
                && after.paths@[k].namespaces@.contains(ns),
        vdi.owner is None ==> after.paths@ == before.paths@,
        r.ana <==> exists|k: int|
            0 <= k < before.ana@.len() && (#[trigger] before.ana@[k]).subsystem == subsystem,
        r.ana ==> exists|k: int|
            0 <= k < after.ana@.len() && (#[trigger] after.ana@[k]).subsystem == subsystem
                && after.ana@[k].namespaces@.contains(ns),
        r.fresh_paths ==> after.paths@.len() == before.paths@.len() + 1
            && after.paths@.last().cluster == vdi.cluster && Some(after.paths@.last().owner)
            == vdi.owner && after.paths@.last().trtype == trtype,
        0 <= i < before.paths@.len() ==> {
            &&& after.paths@[i].subsystem == before.paths@[i].subsystem
            &&& before.paths@[i].subsystem != subsystem ==> after.paths@[i] == before.paths@[i]
            &&& forall|n: ClusterNs| #[trigger]
                before.paths@[i].namespaces@.contains(n)
                    ==> after.paths@[i].namespaces@.contains(n)
        },
        0 <= i < before.ana@.len() ==> {
            &&& after.ana@[i].subsystem == before.ana@[i].subsystem
            &&& before.ana@[i].subsystem != subsystem ==> after.ana@[i] == before.ana@[i]
            &&& forall|n: ClusterNs| #[trigger]
                before.ana@[i].namespaces@.contains(n) ==> after.ana@[i].namespaces@.contains(n)
        },
        after.acls == before.acls,
{
    lemma_place_of(path_keys(before.paths@), subsystem, 0);
    lemma_place_of(ana_keys(before.ana@), subsystem, 0);
    if vdi.owner is Some {
        match place_of(path_keys(before.paths@), subsystem, 0) {
            Some(at) => {
                let had = before.paths@[at].namespaces@;
                lemma_pushed(had, ns);
                assert(path_keys(before.paths@)[at] == before.paths@[at].subsystem);
                assert(after.paths@[at].namespaces@.contains(ns));
            },
            None => {
                let k = after.paths@.len() - 1;
                assert(after.paths@[k].namespaces@[0] == ns);
                assert(after.paths@[k].subsystem == subsystem);
                assert forall|x: int| 0 <= x < before.paths@.len() implies after.paths@[x]
                    == before.paths@[x] by {
                    assert(after.paths@.drop_last()[x] == before.paths@[x]);
                }
            },
        }
    }
    match place_of(ana_keys(before.ana@), subsystem, 0) {
        Some(at) => {
            let had = before.ana@[at].namespaces@;
            lemma_pushed(had, ns);
            assert(ana_keys(before.ana@)[at] == before.ana@[at].subsystem);
            assert(after.ana@[at].namespaces@.contains(ns));
        },
        None => {
            assert forall|k: int| 0 <= k < before.ana@.len() implies (
            #[trigger] before.ana@[k]).subsystem != subsystem by {
                assert(ana_keys(before.ana@)[k] != subsystem);
            }
        },
    }
}

proof fn lemma_pushed(list: Seq<ClusterNs>, ns: ClusterNs)
    ensures
        list.push(ns).contains(ns),
        forall|n: ClusterNs| #[trigger] list.contains(n) ==> list.push(ns).contains(n),
{
    assert(list.push(ns)[list.len() as int] == ns);
    assert forall|n: ClusterNs| #[trigger] list.contains(n) implies list.push(ns).contains(n) by {
        let i = choose|i: int| 0 <= i < list.len() && list[i] == n;
        assert(list.push(ns)[i] == n);
    }
}

/// A volume that is dropped is in no list of its subsystem's first entries any
/// more, the subsystem's other volumes still are, and every other subsystem's
/// lists stay as they were.
pub proof fn lemma_untracked_everywhere(
    before: Clusters,
    after: Clusters,
    subsystem: u64,
    ns: ClusterNs,
    i: int,
    j: int,
)
    requires
        untracked(before, after, subsystem, ns.volume),
        0 <= i < before.paths@.len(),
        0 <= j < before.ana@.len(),
        forall|k: int| 0 <= k < i ==> (#[trigger] before.paths@[k]).subsystem != subsystem,
        forall|k: int| 0 <= k < j ==> (#[trigger] before.ana@[k]).subsystem != subsystem,
    ensures
        after.paths@.len() == before.paths@.len(),
        after.ana@.len() == before.ana@.len(),
        after.acls == before.acls,
        before.paths@[i].subsystem != subsystem ==> after.paths@[i] == before.paths@[i],
        before.ana@[j].subsystem != subsystem ==> after.ana@[j] == before.ana@[j],
        before.paths@[i].subsystem == subsystem ==> forall|o: ClusterNs| #[trigger]
            after.paths@[i].namespaces@.contains(o) <==> before.paths@[i].namespaces@.contains(o)
                && o.volume != ns.volume,
        before.ana@[j].subsystem == subsystem ==> forall|o: ClusterNs| #[trigger]
            after.ana@[j].namespaces@.contains(o) <==> before.ana@[j].namespaces@.contains(o)
                && o.volume != ns.volume,
{
    let pk = path_keys(before.paths@);
    let ak = ana_keys(before.ana@);
    lemma_place_of(pk, subsystem, 0);
    lemma_place_of(ak, subsystem, 0);
    assert forall|k: int| 0 <= k < i implies pk[k] != subsystem by {
        assert(before.paths@[k].subsystem != subsystem);
    }
    assert forall|k: int| 0 <= k < j implies ak[k] != subsystem by {
        assert(before.ana@[k].subsystem != subsystem);
    }
    assert(pk[i] == before.paths@[i].subsystem);
    assert(ak[j] == before.ana@[j].subsystem);
    if before.paths@[i].subsystem == subsystem {
        assert(place_of(pk, subsystem, 0) == Some(i));
        assert forall|o: ClusterNs| #[trigger] after.paths@[i].namespaces@.contains(o)
            <==> before.paths@[i].namespaces@.contains(o) && o.volume != ns.volume by {
            lemma_untracked(before.paths@[i].namespaces@, ns, o);
        }
    }
    if before.ana@[j].subsystem == subsystem {
        assert(place_of(ak, subsystem, 0) == Some(j));
        assert forall|o: ClusterNs| #[trigger] after.ana@[j].namespaces@.contains(o)
            <==> before.ana@[j].namespaces@.contains(o) && o.volume != ns.volume by {
            lemma_untracked(before.ana@[j].namespaces@, ns, o);
        }
    }
}

} // verus!
