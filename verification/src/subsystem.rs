//! Subsystems and the port configuration queue threads serve from.
//!
//! The namespace table supports runtime add/remove: readers cache a snapshot
//! and revalidate it by the table's generation, refreshing only when the
//! control plane changed something.

use vstd::pervasive::unreached;
use vstd::prelude::*;

use crate::addr;
use crate::addr::{IpAddr, SocketAddr};
use crate::backend::Backend;
use crate::nstable;
use crate::nstable::{AnaBook, AnaState, Namespace, NsMap, ANA_GRPID_PLACEHOLDER};
use crate::text;
use crate::text::{
    chars_of, has_text, numbered, owned, owned_texts, parse_number, same_text, same_texts,
};

verus! {

/// Fabric transport serving a port. Protocol wire encodings (e.g. the NVMe-oF
/// discovery-log TRTYPE byte) are the protocol layer's concern.
#[derive(Debug, Clone, Copy, PartialEq, Eq, Structural)]
pub enum TransportType {
    /// NVMe/TCP.
    Tcp,
    /// NVMe/RDMA.
    Rdma,
}

/// One path to a subsystem — a target that serves it, addressed the way a
/// discovery-log entry advertises it.
///
/// A subsystem served by several targets (Sheepdog: every target registered on
/// the cluster ACL of that name) has one of these per target, so a host that
/// discovers it learns every path, not just the one it happened to ask.
#[derive(Debug, PartialEq, Eq)]
pub struct SubsystemPort {
    /// Transport address (`TRADDR`) the target listens on.
    pub traddr: String,
    /// Service id (`TRSVCID`) — the port, as a string.
    pub trsvcid: String,
    /// Transport serving this path (`TRTYPE`).
    pub trtype: TransportType,
    /// `PORTID`: distinguishes this path from the subsystem's others. Only its
    /// distinctness matters to a host — it keys the ANA/path bookkeeping.
    pub portid: u16,
}

/// A path, as what it says.
pub struct Path {
    /// Transport address.
    pub traddr: Seq<char>,
    /// Service id.
    pub trsvcid: Seq<char>,
    /// Transport.
    pub trtype: TransportType,
    /// Port id.
    pub portid: u16,
}

impl View for SubsystemPort {
    type V = Path;

    open spec fn view(&self) -> Path {
        Path {
            traddr: self.traddr@,
            trsvcid: self.trsvcid@,
            trtype: self.trtype,
            portid: self.portid,
        }
    }
}

impl Clone for SubsystemPort {
    fn clone(&self) -> (r: Self)
        ensures
            r@ == self@,
    {
        SubsystemPort {
            traddr: owned(self.traddr.as_str()),
            trsvcid: owned(self.trsvcid.as_str()),
            trtype: self.trtype,
            portid: self.portid,
        }
    }
}

impl SubsystemPort {
    /// Whether both are the same path.
    pub fn same(&self, other: &SubsystemPort) -> (r: bool)
        ensures
            r == (self@ == other@),
    {
        same_text(self.traddr.as_str(), other.traddr.as_str()) && same_text(
            self.trsvcid.as_str(),
            other.trsvcid.as_str(),
        ) && self.trtype == other.trtype && self.portid == other.portid
    }
}

/// The paths of `v`.
pub open spec fn paths(v: Seq<SubsystemPort>) -> Seq<Path> {
    Seq::new(v.len(), |i: int| v[i]@)
}

/// Whether two lists hold the same paths in the same order.
pub fn same_ports(a: &Vec<SubsystemPort>, b: &Vec<SubsystemPort>) -> (r: bool)
    ensures
        r == (paths(a@) == paths(b@)),
{
    if a.len() != b.len() {
        assert(paths(a@).len() != paths(b@).len());
        return false;
    }
    let n: usize = a.len();
    for i in 0..n
        invariant
            n == a@.len() == b@.len(),
            forall|j: int| 0 <= j < i ==> (#[trigger] a@[j])@ == b@[j]@,
    {
        if !a[i].same(&b[i]) {
            assert(paths(a@)[i as int] != paths(b@)[i as int]);
            return false;
        }
    }
    assert(paths(a@) =~= paths(b@));
    true
}

/// Who may connect to a subsystem: any host at all, or the hostnqns on a list.
///
/// Kept as one value because the two halves only mean anything together —
/// `allow_any_host` is exactly "ignore `hosts`" — and because a control plane
/// that re-reads the ACL from somewhere else (a Sheepdog ACL object's member
/// names) must be able to swap both at once, with no instant in which a
/// subsystem is open but list-less or closed but not yet populated.
#[derive(Debug, PartialEq, Eq)]
pub struct HostAcl {
    /// Accept any hostnqn, ignoring `hosts`.
    pub allow_any_host: bool,
    /// Hostnqns admitted when `allow_any_host` is off.
    pub hosts: Vec<String>,
}

/// A host ACL, as what it says.
pub struct Admission {
    /// Any host at all.
    pub any: bool,
    /// The hosts on the list.
    pub hosts: Seq<Seq<char>>,
}

impl View for HostAcl {
    type V = Admission;

    open spec fn view(&self) -> Admission {
        Admission { any: self.allow_any_host, hosts: text::texts(self.hosts@) }
    }
}

impl Clone for HostAcl {
    fn clone(&self) -> (r: Self)
        ensures
            r@ == self@,
    {
        HostAcl { allow_any_host: self.allow_any_host, hosts: owned_texts(&self.hosts) }
    }
}

impl Default for HostAcl {
    /// The ACL nobody is on.
    fn default() -> (r: Self)
        ensures
            r@ == (Admission { any: false, hosts: seq![] }),
    {
        let hosts: Vec<String> = Vec::new();
        assert(text::texts(hosts@) =~= seq![]);
        HostAcl { allow_any_host: false, hosts }
    }
}

impl HostAcl {
    /// The ACL that admits everybody — a subsystem nobody has restricted.
    pub fn any() -> (r: HostAcl)
        ensures
            r@ == (Admission { any: true, hosts: seq![] }),
    {
        let hosts: Vec<String> = Vec::new();
        assert(text::texts(hosts@) =~= seq![]);
        HostAcl { allow_any_host: true, hosts }
    }

    /// The ACL admitting exactly `hosts`.
    pub fn listed(hosts: Vec<String>) -> (r: HostAcl)
        ensures
            r@ == (Admission { any: false, hosts: text::texts(hosts@) }),
    {
        HostAcl { allow_any_host: false, hosts }
    }

    /// Whether both admit by the same rule.
    pub fn same(&self, other: &HostAcl) -> (r: bool)
        ensures
            r == (self@ == other@),
    {
        self.allow_any_host == other.allow_any_host && same_texts(&self.hosts, &other.hosts)
    }
}

/// Whether the rule admits `hostnqn`.
pub open spec fn admitted(acl: Admission, hostnqn: Seq<char>) -> bool {
    acl.any || acl.hosts.contains(hostnqn)
}

/// Whether `v` ascends, no value twice.
pub open spec fn ascends(v: Seq<u32>) -> bool {
    forall|i: int, j: int| 0 <= i < j < v.len() ==> v[i] < v[j]
}

/// Put `z` in its place among ascending values, unless it is there.
fn insert_zone(v: &mut Vec<u32>, z: u32)
    requires
        ascends(old(v)@),
    ensures
        ascends(final(v)@),
        final(v)@.to_set() == old(v)@.to_set().insert(z),
{
    let n: usize = v.len();
    let mut i: usize = 0;
    while i < n && v[i] < z
        invariant
            n == v@.len(),
            i <= n,
            forall|j: int| 0 <= j < i ==> v@[j] < z,
        decreases n - i,
    {
        i = i + 1;
    }
    if i < n && v[i] == z {
        assert(v@.to_set() =~= old(v)@.to_set().insert(z));
        return;
    }
    let ghost before = v@;
    assert forall|j: int| i <= j < n implies before[j] > z by {
        if j > i {
            assert(before[i as int] < before[j]);
        }
    }
    v.insert(i, z);
    proof {
        assert forall|a: int, b: int| 0 <= a < b < v@.len() implies v@[a] < v@[b] by {
            if a < i && b > i {
                assert(before[a] < before[b - 1]);
            } else if a > i {
                assert(before[a - 1] < before[b - 1]);
            } else if b < i {
                assert(before[a] < before[b]);
            }
        }
        assert forall|x: u32| v@.to_set().contains(x) == before.to_set().insert(z).contains(x) by {
            if v@.contains(x) {
                let k = choose|k: int| 0 <= k < v@.len() && v@[k] == x;
                if k < i {
                    assert(before[k] == x);
                } else if k > i {
                    assert(before[k - 1] == x);
                }
            }
            if before.contains(x) {
                let k = choose|k: int| 0 <= k < before.len() && before[k] == x;
                if k < i {
                    assert(v@[k] == x);
                } else {
                    assert(v@[k + 1] == x);
                }
            }
            assert(v@[i as int] == z);
        }
        assert(v@.to_set() =~= before.to_set().insert(z));
    }
}

/// An NVM subsystem. Identity is immutable; the namespace table is versioned
/// (see module docs).
#[derive(Debug)]
pub struct Subsystem<B> {
    /// Subsystem NQN.
    pub nqn: String,
    /// Serial number (Identify Controller `sn`, ≤ 20 ASCII chars).
    pub serial: String,
    /// Model number (`mn`, ≤ 40 ASCII chars).
    pub model: String,
    /// The host ACL in force.
    pub hosts: HostAcl,
    /// Namespaces reported as `MNAN`.
    pub mnan: Option<u32>,
    /// Whether ANA is reported.
    pub ana: bool,
    /// Changes of ANA groups and states there were.
    pub ana_chgcnt: u64,
    /// Every ANA group id this subsystem might report, ascending and
    /// deduplicated (`NANAGRPID`/`ANAGRPMAX`) — a cluster's zones. It can only
    /// ever grow (see [`Subsystem::merge_ana_zones`]).
    pub ana_zones: Vec<u32>,
    /// The ANA states of the namespaces, those that left the table among them.
    pub ana_states: AnaBook,
    /// The namespace table.
    pub namespaces: NsMap<B>,
    /// The table's version.
    pub generation: u64,
    /// The paths it is reachable by.
    pub ports: Vec<SubsystemPort>,
    /// Its share of the discovery log's `GENCTR`.
    pub disc_genctr: u64,
}

impl<B> Subsystem<B> {
    /// The table is in order, each namespace in it has an ANA state of its own,
    /// and the ANA groups ascend.
    pub open spec fn wf(&self) -> bool {
        &&& self.namespaces.wf()
        &&& nstable::celled(self.namespaces@, self.ana_states@.len())
        &&& ascends(self.ana_zones@)
    }
}

impl<B: Backend> Subsystem<B> {
    /// Build with an initial namespace table, the ANA states of the namespaces in
    /// it, and host ACL.
    pub fn new(
        nqn: String,
        serial: String,
        model: String,
        hosts: HostAcl,
        namespaces: NsMap<B>,
        ana_states: AnaBook,
    ) -> (r: Self)
        requires
            namespaces.wf(),
            nstable::celled(namespaces@, ana_states@.len()),
        ensures
            r.wf(),
            r.nqn == nqn,
            r.serial == serial,
            r.model == model,
            r.hosts == hosts,
            r.mnan is None,
            !r.ana,
            r.ana_chgcnt == 1,
            r.ana_zones@ == Seq::<u32>::empty(),
            r.namespaces == namespaces,
            r.ana_states == ana_states,
            r.generation == 1,
            r.ports@ == Seq::<SubsystemPort>::empty(),
            r.disc_genctr == 1,
    {
        Subsystem {
            nqn,
            serial,
            model,
            hosts,
            mnan: None,
            ana: false,
            ana_chgcnt: 1,
            ana_zones: Vec::new(),
            ana_states,
            namespaces,
            generation: 1,
            ports: Vec::new(),
            disc_genctr: 1,
        }
    }

    /// Report `mnan` namespaces as Identify Controller `MNAN` (Maximum Number
    /// of Allocated Namespaces).
    ///
    /// Set it where the storage carries its own notion of how many namespaces
    /// the subsystem holds — a Sheepdog ACL object, whose inode sizes its
    /// member table with `max_data_id_nr` — which for sparse NSIDs is the only
    /// count a host can get: `NN` is the highest valid NSID, not a count.
    /// `None` leaves the field zero, which means "no more than `NN`".
    pub fn with_mnan(self, mnan: Option<u32>) -> (r: Self)
        ensures
            r == (Subsystem { mnan, ..self }),
    {
        let mut s = self;
        s.mnan = mnan;
        s
    }

    /// Report Asymmetric Namespace Access for this subsystem: CMIC bit 3, the
    /// Identify Controller ANA fields, per-namespace `ANAGRPID`, the ANA log
    /// page, and the ANA Change async event.
    ///
    /// Enable it where the paths to a namespace are genuinely unequal and we
    /// can tell which is which — Sheepdog, where a namespace's ANA group is
    /// the zone of the cluster that owns its placement, and this path is
    /// optimized for it exactly when the gateway we talk to is in that zone. A
    /// subsystem with no such knowledge leaves it off.
    ///
    /// Seeds the group set with the same placeholder group every new
    /// [`Namespace`] starts in, so `NANAGRPID`/`ANAGRPMAX` are never zero even
    /// in the brief window before the first placement refresh lands.
    pub fn with_ana(self, ana: bool) -> (r: Self)
        ensures
            r == (Subsystem { ana, ana_zones: r.ana_zones, ..self }),
            r.ana_zones@ == (if ana {
                seq![ANA_GRPID_PLACEHOLDER]
            } else {
                self.ana_zones@
            }),
            self.wf() ==> r.wf(),
    {
        let mut s = self;
        s.ana = ana;
        if ana {
            let mut zones: Vec<u32> = Vec::new();
            zones.push(ANA_GRPID_PLACEHOLDER);
            assert(zones@ =~= seq![ANA_GRPID_PLACEHOLDER]);
            s.ana_zones = zones;
        }
        s
    }

    /// Whether this subsystem reports ANA ([`Subsystem::with_ana`]).
    pub fn ana(&self) -> (r: bool)
        ensures
            r == self.ana,
    {
        self.ana
    }

    /// ANA change count: bumped whenever a namespace's group or state changes,
    /// or the group set itself grows, and reported in the log page header and
    /// every group descriptor so a host can tell a re-read raced a change.
    pub fn ana_chgcnt(&self) -> (r: u64)
        ensures
            r == self.ana_chgcnt,
    {
        self.ana_chgcnt
    }

    /// Every ANA group id this subsystem might report
    /// ([`Subsystem::merge_ana_zones`]), ascending and deduplicated.
    pub fn ana_zones(&self) -> (r: &Vec<u32>)
        ensures
            r@ == self.ana_zones@,
            self.wf() ==> ascends(r@),
    {
        &self.ana_zones
    }

    /// Union `zones` into the group set every ANA log page descriptor is built
    /// from. Returns whether this grew the set — the caller turns that into an
    /// ANA Change notice, since a host that already read the log needs to know
    /// a group it never saw now exists.
    ///
    /// Union rather than replace: a subsystem's cluster namespaces can span
    /// more than one Sheepdog cluster, each refreshed independently and each
    /// knowing only its own zones, so no single refresh may drop what another
    /// one contributed.
    pub fn merge_ana_zones(&mut self, zones: &[u32]) -> (r: bool)
        requires
            old(self).wf(),
        ensures
            final(self).wf(),
            r == !zones@.to_set().subset_of(old(self).ana_zones@.to_set()),
            final(self).ana_zones@.to_set() == old(self).ana_zones@.to_set().union(
                zones@.to_set(),
            ),
            !r ==> final(self).ana_zones@ == old(self).ana_zones@,
            *final(self) == (Subsystem {
                ana_zones: final(self).ana_zones,
                ana_chgcnt: if r {
                    old(self).ana_chgcnt.wrapping_add(1)
                } else {
                    old(self).ana_chgcnt
                },
                ..*old(self)
            }),
    {
        let n: usize = zones.len();
        let mut all: bool = true;
        for i in 0..n
            invariant
                n == zones@.len(),
                self.wf(),
                all == (forall|j: int|
                    0 <= j < i ==> self.ana_zones@.contains(#[trigger] zones@[j])),
        {
            if !has_zone(&self.ana_zones, zones[i]) {
                all = false;
            }
        }
        if all {
            proof {
                assert forall|z: u32| zones@.to_set().contains(z) implies self.ana_zones@.to_set().contains(
                z) by {
                    let j = choose|j: int| 0 <= j < zones@.len() && zones@[j] == z;
                    assert(self.ana_zones@.contains(zones@[j]));
                }
                assert(self.ana_zones@.to_set().union(zones@.to_set())
                    =~= self.ana_zones@.to_set());
            }
            return false;
        }
        proof {
            let j = choose|j: int|
                0 <= j < zones@.len() && !self.ana_zones@.contains(#[trigger] zones@[j]);
            assert(zones@.to_set().contains(zones@[j]));
            assert(!self.ana_zones@.to_set().contains(zones@[j]));
        }
        let mut merged: Vec<u32> = Vec::new();
        let m: usize = self.ana_zones.len();
        for i in 0..m
            invariant
                m == self.ana_zones@.len(),
                merged@ == self.ana_zones@.take(i as int),
        {
            merged.push(self.ana_zones[i]);
            assert(merged@ =~= self.ana_zones@.take(i as int + 1));
        }
        assert(merged@ =~= self.ana_zones@);
        assert(zones@.take(0).to_set() =~= Set::empty());
        assert(merged@.to_set() =~= self.ana_zones@.to_set().union(zones@.take(0).to_set()));
        for i in 0..n
            invariant
                n == zones@.len(),
                ascends(merged@),
                merged@.to_set() == self.ana_zones@.to_set().union(
                    zones@.take(i as int).to_set(),
                ),
        {
            insert_zone(&mut merged, zones[i]);
            proof {
                let s = zones@.take(i as int);
                let t = zones@.take(i as int + 1);
                assert(t =~= s.push(zones@[i as int]));
                assert forall|z: u32| t.to_set().contains(z) == s.to_set().insert(
                    zones@[i as int],
                ).contains(z) by {
                    if s.contains(z) {
                        let k = choose|k: int| 0 <= k < s.len() && s[k] == z;
                        assert(t[k] == z);
                    }
                    if t.contains(z) {
                        let k = choose|k: int| 0 <= k < t.len() && t[k] == z;
                        if k < s.len() {
                            assert(s[k] == z);
                        }
                    }
                    assert(t[i as int] == zones@[i as int]);
                }
                assert(merged@.to_set() =~= self.ana_zones@.to_set().union(t.to_set()));
            }
        }
        assert(zones@.take(n as int) =~= zones@);
        self.ana_zones = merged;
        self.ana_chgcnt = self.ana_chgcnt.wrapping_add(1);
        true
    }

    /// Set `ns`'s ANA group and per-path state, bumping the change count if
    /// either changed, whether or not the table holds `ns`. Returns whether
    /// anything changed — the caller uses that to decide whether hosts need an
    /// ANA Change notice.
    pub fn set_ana_state(&mut self, ns: &Namespace<B>, grpid: u32, optimized: bool) -> (r: bool)
        requires
            ns.cell < old(self).ana_states@.len(),
        ensures
            r == (ns.ana(old(self).ana_states@) != AnaState { grpid, optimized }),
            final(self).ana_states@ == old(self).ana_states@.update(
                ns.cell as int,
                AnaState { grpid, optimized },
            ),
            *final(self) == (Subsystem {
                ana_states: final(self).ana_states,
                ana_chgcnt: if r {
                    old(self).ana_chgcnt.wrapping_add(1)
                } else {
                    old(self).ana_chgcnt
                },
                ..*old(self)
            }),
            old(self).wf() ==> final(self).wf(),
    {
        self.set_cell(ns.cell, grpid, optimized)
    }

    /// [`Subsystem::set_ana_state`] of the namespace whose ANA state is in
    /// `cell`.
    pub fn set_cell(&mut self, cell: usize, grpid: u32, optimized: bool) -> (r: bool)
        requires
            cell < old(self).ana_states@.len(),
        ensures
            r == (old(self).ana_states@[cell as int] != AnaState { grpid, optimized }),
            final(self).ana_states@ == old(self).ana_states@.update(
                cell as int,
                AnaState { grpid, optimized },
            ),
            *final(self) == (Subsystem {
                ana_states: final(self).ana_states,
                ana_chgcnt: if r {
                    old(self).ana_chgcnt.wrapping_add(1)
                } else {
                    old(self).ana_chgcnt
                },
                ..*old(self)
            }),
            old(self).wf() ==> final(self).wf(),
    {
        let changed: bool = self.ana_states.set(cell, AnaState { grpid, optimized });
        if changed {
            self.ana_chgcnt = self.ana_chgcnt.wrapping_add(1);
        }
        changed
    }

    /// The paths this subsystem is reachable by ([`Subsystem::set_ports`]);
    /// empty until something tells us, which is every subsystem whose paths
    /// are not published anywhere.
    pub fn ports(&self) -> (r: &Vec<SubsystemPort>)
        ensures
            r@ == self.ports@,
    {
        &self.ports
    }

    /// Replace the path list, as the control plane learns it — for Sheepdog,
    /// each refresh of the holders registered on the subsystem's cluster ACL.
    /// Returns whether this changed anything, which the caller turns into a
    /// discovery-log generation bump and a Discovery Log Page Change notice.
    ///
    /// The bump is the caller's, not this method's: seeding the list at
    /// startup is a change too, and there the counter should still read as the
    /// version the storage itself states
    /// ([`Subsystem::observe_disc_genctr`]) rather than one past it.
    pub fn set_ports(&mut self, ports: Vec<SubsystemPort>) -> (r: bool)
        ensures
            r == (paths(old(self).ports@) != paths(ports@)),
            paths(final(self).ports@) == paths(ports@),
            *final(self) == (Subsystem { ports: final(self).ports, ..*old(self) }),
    {
        if same_ports(&self.ports, &ports) {
            return false;
        }
        self.ports = ports;
        true
    }

    /// Builder form of [`Subsystem::set_ports`], for a list known at startup.
    pub fn with_ports(self, ports: Vec<SubsystemPort>) -> (r: Self)
        ensures
            paths(r.ports@) == paths(ports@),
            r == (Subsystem { ports: r.ports, ..self }),
    {
        let mut s = self;
        let _ = s.set_ports(ports);
        s
    }

    /// This subsystem's share of the discovery log's `GENCTR`: a counter a
    /// host re-reads the log on a change of, and compares across a multi-part
    /// read to tell that one raced a change.
    ///
    /// Moved by both of the things that can change what a discovery entry for
    /// this subsystem says: the version the storage keeps itself
    /// ([`Subsystem::observe_disc_genctr`] — a Sheepdog ACL object's inode
    /// `vdi_epoch`) and the path list this target discovers on its own
    /// ([`Subsystem::bump_disc_genctr`], from `set_ports`).
    pub fn disc_genctr(&self) -> (r: u64)
        ensures
            r == self.disc_genctr,
    {
        self.disc_genctr
    }

    /// Take up a generation the storage states for itself, keeping the counter
    /// monotonic: a Sheepdog ACL object's `vdi_epoch`, which the cluster bumps
    /// when the ACL's volume membership changes. Returns whether the counter
    /// moved.
    ///
    /// Monotonic rather than authoritative because it shares the counter with
    /// the local bumps below, and every target must be free to advance it
    /// without the cluster's help: an epoch that has fallen behind the local
    /// count is not applied.
    pub fn observe_disc_genctr(&mut self, epoch: u64) -> (r: bool)
        ensures
            r == (old(self).disc_genctr < epoch),
            *final(self) == (Subsystem {
                disc_genctr: later(old(self).disc_genctr, epoch),
                ..*old(self)
            }),
    {
        if self.disc_genctr < epoch {
            self.disc_genctr = epoch;
            true
        } else {
            false
        }
    }

    /// Note a discovery-log change only this target can see — a peer joining
    /// or leaving the subsystem's path list.
    pub fn bump_disc_genctr(&mut self)
        ensures
            *final(self) == (Subsystem {
                disc_genctr: old(self).disc_genctr.wrapping_add(1),
                ..*old(self)
            }),
    {
        self.disc_genctr = self.disc_genctr.wrapping_add(1);
    }

    /// The host ACL in force ([`Subsystem::set_host_acl`]).
    pub fn host_acl(&self) -> (r: &HostAcl)
        ensures
            *r == self.hosts,
    {
        &self.hosts
    }

    /// Replace the host ACL, as the control plane learns it — for a Sheepdog
    /// cluster subsystem, each refresh of its ACL object's member names.
    /// Returns whether this changed anything, which the caller uses to decide
    /// whether the change is worth reporting.
    ///
    /// Takes effect on the next Connect, not on the connections already up:
    /// admission is decided once, when a controller is created, so a host
    /// dropped from the ACL keeps the controller it has until it goes away.
    pub fn set_host_acl(&mut self, hosts: HostAcl) -> (r: bool)
        ensures
            r == (old(self).hosts@ != hosts@),
            final(self).hosts@ == hosts@,
            *final(self) == (Subsystem { hosts: final(self).hosts, ..*old(self) }),
    {
        if self.hosts.same(&hosts) {
            return false;
        }
        self.hosts = hosts;
        true
    }

    /// Host admission: any host, or membership in the ACL's host list.
    pub fn admits(&self, hostnqn: &str) -> (r: bool)
        ensures
            r == admitted(self.hosts@, hostnqn@),
    {
        self.hosts.allow_any_host || has_text(&self.hosts.hosts, hostnqn)
    }

    /// Current table snapshot (control plane and admin/cold paths).
    pub fn snapshot(&self) -> (r: NsMap<B>)
        ensures
            r@ == self.namespaces@,
            r.listed() == self.namespaces.listed(),
    {
        self.namespaces.clone()
    }

    /// Table version; bumped on every change.
    pub fn generation(&self) -> (r: u64)
        ensures
            r == self.generation,
    {
        self.generation
    }

    /// Add a namespace that was made with [`Subsystem::ana_states`]. Errors if
    /// the NSID is taken.
    pub fn add_namespace(&mut self, ns: Namespace<B>) -> (r: Result<(), String>)
        requires
            old(self).wf(),
            nstable::is_new(old(self).namespaces@, ns, old(self).ana_states@.len()),
        ensures
            final(self).wf(),
            r is Ok <==> !old(self).namespaces@.contains_key(ns.nsid),
            match r {
                Ok(_) => {
                    &&& final(self).namespaces@ == old(self).namespaces@.insert(ns.nsid, ns)
                    &&& *final(self) == (Subsystem {
                        namespaces: final(self).namespaces,
                        generation: old(self).generation.wrapping_add(1),
                        ..*old(self)
                    })
                },
                Err(m) => {
                    &&& m@ == "nsid "@ + text::decimal(ns.nsid as nat) + " already exists"@
                    &&& *final(self) == *old(self)
                },
            },
    {
        if self.namespaces.contains_key(ns.nsid) {
            return Err(numbered("nsid ", ns.nsid as u64, " already exists"));
        }
        proof {
            nstable::lemma_celled_insert(self.namespaces@, ns, self.ana_states@.len());
        }
        self.namespaces.insert(ns);
        self.generation = self.generation.wrapping_add(1);
        Ok(())
    }

    /// Remove a namespace; in-flight IO holding an old snapshot completes
    /// against the still-alive backend.
    pub fn remove_namespace(&mut self, nsid: u32) -> (r: Result<(), String>)
        requires
            old(self).wf(),
        ensures
            final(self).wf(),
            r is Ok <==> old(self).namespaces@.contains_key(nsid),
            match r {
                Ok(_) => {
                    &&& final(self).namespaces@ == old(self).namespaces@.remove(nsid)
                    &&& *final(self) == (Subsystem {
                        namespaces: final(self).namespaces,
                        generation: old(self).generation.wrapping_add(1),
                        ..*old(self)
                    })
                },
                Err(m) => {
                    &&& m@ == "nsid "@ + text::decimal(nsid as nat) + " not found"@
                    &&& *final(self) == *old(self)
                },
            },
    {
        if !self.namespaces.contains_key(nsid) {
            return Err(numbered("nsid ", nsid as u64, " not found"));
        }
        let _ = self.namespaces.remove(nsid);
        self.generation = self.generation.wrapping_add(1);
        Ok(())
    }

    /// Highest allocated NSID (Identify Controller `nn`): the largest NSID a
    /// host may ask about.
    pub fn max_nsid(&self) -> (r: u32)
        requires
            self.wf(),
        ensures
            self.namespaces@ == Map::<u32, Namespace<B>>::empty() ==> r == 0,
            self.namespaces@ != Map::<u32, Namespace<B>>::empty()
                ==> self.namespaces@.contains_key(r),
            forall|k: u32| #[trigger] self.namespaces@.contains_key(k) ==> k <= r,
    {
        self.namespaces.max_nsid()
    }

    /// Identify Controller `MNAN` ([`Subsystem::with_mnan`]); `0` where the
    /// storage supplies no count, meaning "no more than `NN`".
    pub fn mnan(&self) -> (r: u32)
        ensures
            r == (match self.mnan {
                Some(n) => n,
                None => 0u32,
            }),
    {
        match self.mnan {
            Some(n) => n,
            None => 0,
        }
    }

    /// Bytes of NVM the subsystem holds (Identify Controller `TNVMCAP`): the
    /// sum of every attached namespace's [`Namespace::capacity`], so an add or
    /// remove moves it.
    pub fn total_capacity(&self) -> (r: u128)
        requires
            nstable::capacity_sum(self.namespaces.listed()) <= u128::MAX,
            forall|i: int|
                0 <= i < self.namespaces.listed().len() ==> (
                #[trigger] self.namespaces.listed()[i]).backend.shift() < 128,
        ensures
            r == nstable::capacity_sum(self.namespaces.listed()),
    {
        self.namespaces.total_capacity()
    }
}

/// What [`Subsystem::total_capacity`] reports moves with the namespaces: adding
/// `ns` to `less` gives `more`, removing it from `more` gives `less`, and the
/// two differ by exactly its capacity.
pub proof fn lemma_total_capacity_moves<B: Backend>(
    less: Subsystem<B>,
    more: Subsystem<B>,
    ns: Namespace<B>,
)
    requires
        less.wf(),
        more.wf(),
        ({
            ||| {
                &&& !less.namespaces@.contains_key(ns.nsid)
                &&& more.namespaces@ == less.namespaces@.insert(ns.nsid, ns)
            }
            ||| {
                &&& more.namespaces@.contains_key(ns.nsid)
                &&& more.namespaces@[ns.nsid] == ns
                &&& less.namespaces@ == more.namespaces@.remove(ns.nsid)
            }
        }),
    ensures
        nstable::capacity_sum(more.namespaces.listed()) == nstable::capacity_sum(
            less.namespaces.listed(),
        ) + nstable::capacity_of(ns),
{
    assert(more.namespaces@ =~= less.namespaces@.insert(ns.nsid, ns));
    nstable::lemma_capacity_moves(less.namespaces, more.namespaces, ns);
}

/// What [`Subsystem::total_capacity`] reports is the sum over the namespaces in
/// force: nothing where there are none, more by the capacity of a namespace that
/// was added, and what it was once that namespace is removed again.
pub proof fn lemma_total_capacity_restored<B: Backend>(
    before: Subsystem<B>,
    added: Subsystem<B>,
    removed: Subsystem<B>,
    ns: Namespace<B>,
)
    requires
        before.wf(),
        added.wf(),
        removed.wf(),
        !before.namespaces@.contains_key(ns.nsid),
        added.namespaces@ == before.namespaces@.insert(ns.nsid, ns),
        removed.namespaces@ == added.namespaces@.remove(ns.nsid),
    ensures
        before.namespaces@ == Map::<u32, Namespace<B>>::empty() ==> nstable::capacity_sum(
            before.namespaces.listed(),
        ) == 0,
        nstable::capacity_sum(added.namespaces.listed()) == nstable::capacity_sum(
            before.namespaces.listed(),
        ) + nstable::capacity_of(ns),
        nstable::capacity_sum(removed.namespaces.listed()) == nstable::capacity_sum(
            before.namespaces.listed(),
        ),
{
    lemma_total_capacity_moves(before, added, ns);
    assert(removed.namespaces@ =~= before.namespaces@);
    before.namespaces.lemma_listed();
    removed.namespaces.lemma_listed();
    nstable::lemma_one_list(removed.namespaces.listed(), before.namespaces.listed());
    if before.namespaces@ == Map::<u32, Namespace<B>>::empty()
        && before.namespaces.listed().len() > 0 {
        assert(before.namespaces@.contains_key(before.namespaces.listed()[0].nsid));
        assert(!Map::<u32, Namespace<B>>::empty().contains_key(
            before.namespaces.listed()[0].nsid,
        ));
    }
}

fn has_zone(v: &Vec<u32>, z: u32) -> (r: bool)
    ensures
        r == v@.contains(z),
{
    let n: usize = v.len();
    for i in 0..n
        invariant
            n == v@.len(),
            forall|j: int| 0 <= j < i ==> v@[j] != z,
    {
        if v[i] == z {
            return true;
        }
    }
    false
}

/// A group set that was merged holds all it held: it only ever grows.
pub proof fn lemma_zones_grow(before: Seq<u32>, zones: Seq<u32>, after: Seq<u32>, z: u32)
    requires
        after.to_set() == before.to_set().union(zones.to_set()),
        before.contains(z) || zones.contains(z),
    ensures
        after.contains(z),
{
    assert(before.to_set().contains(z) || zones.to_set().contains(z));
    assert(after.to_set().contains(z));
}

/// The later of two discovery generations.
pub open spec fn later(ctr: u64, epoch: u64) -> u64 {
    if ctr < epoch {
        epoch
    } else {
        ctr
    }
}

/// The discovery generation never falls: a generation the storage states never
/// moves it back, and a local bump moves it on until it wraps.
pub proof fn lemma_disc_genctr_monotone(ctr: u64, epoch: u64)
    ensures
        ctr <= later(ctr, epoch),
        epoch <= later(ctr, epoch),
        ctr < u64::MAX ==> ctr < ctr.wrapping_add(1),
{
}

/// Per-connection generation-validated cache of a subsystem's table: a compare
/// per command, a refresh only when the control plane changed the table.
#[derive(Debug)]
pub struct NsCache<B> {
    /// The generation the table was taken at.
    pub generation: u64,
    /// The table, once one was taken.
    pub map: Option<NsMap<B>>,
}

impl<B> Default for NsCache<B> {
    /// Nothing cached.
    fn default() -> (r: Self)
        ensures
            r.generation == 0,
            r.map is None,
    {
        NsCache { generation: 0, map: None }
    }
}

/// Whether `cache` holds a table of the version `subsys` is at.
pub open spec fn current<B>(cache: NsCache<B>, subsys: Subsystem<B>) -> bool {
    cache.map is Some && cache.generation == subsys.generation
}

/// Whether `map` is the table of `subsys`.
pub open spec fn is_table<B>(map: NsMap<B>, subsys: Subsystem<B>) -> bool {
    map@ == subsys.namespaces@
}

/// Whether a table `cache` holds at the version of `subsys` is the one in
/// force.
pub open spec fn tells<B>(cache: NsCache<B>, subsys: Subsystem<B>) -> bool {
    current(cache, subsys) ==> is_table(cache.map->0, subsys)
}

impl<B: Backend> NsCache<B> {
    /// Current table for `subsys`, refreshed if stale.
    pub fn get(&mut self, subsys: &Subsystem<B>) -> (r: &NsMap<B>)
        ensures
            final(self).map == Some(*r),
            current(*final(self), *subsys),
            if current(*old(self), *subsys) {
                *final(self) == *old(self)
            } else {
                is_table(*r, *subsys) && r.listed() == subsys.namespaces.listed()
            },
            tells(*old(self), *subsys) ==> is_table(*r, *subsys) && tells(*final(self), *subsys),
    {
        let stale: bool = self.generation != subsys.generation || self.map.is_none();
        if stale {
            self.map = Some(subsys.snapshot());
            self.generation = subsys.generation;
        }
        match &self.map {
            Some(m) => m,
            None => unreached(),
        }
    }
}

/// Whether `cache` was taken from `subsys` at its present version, and is its
/// table, or at an earlier one.
pub open spec fn follows<B>(cache: NsCache<B>, subsys: Subsystem<B>) -> bool {
    ||| cache.map is None
    ||| cache.generation < subsys.generation
    ||| {
        &&& current(cache, subsys)
        &&& is_table(cache.map->0, subsys)
    }
}

/// A cache keeps telling the truth through every change of the subsystem: an
/// added or removed namespace moves the generation on, until it wraps, and
/// anything else leaves the table as it is.
pub proof fn lemma_cache_stays_true<B>(cache: NsCache<B>, before: Subsystem<B>, after: Subsystem<B>)
    requires
        follows(cache, before),
        ({
            ||| {
                &&& before.generation < u64::MAX
                &&& after.generation == before.generation.wrapping_add(1)
            }
            ||| {
                &&& after.generation == before.generation
                &&& after.namespaces@ == before.namespaces@
            }
        }),
    ensures
        follows(cache, after),
        tells(cache, after),
{
}

/// A change of a namespace's ANA state shows through every table that holds the
/// namespace, however long ago it was taken and whether or not it is still in
/// force, and no other namespace of the table shows it.
pub proof fn lemma_tables_show_ana<B>(
    taken: Subsystem<B>,
    before: Subsystem<B>,
    after: Subsystem<B>,
    nsid: u32,
    state: AnaState,
    other: u32,
)
    requires
        taken.wf(),
        taken.ana_states@.len() <= before.ana_states@.len(),
        taken.namespaces@.contains_key(nsid),
        after.ana_states@ == before.ana_states@.update(
            taken.namespaces@[nsid].cell as int,
            state,
        ),
        taken.namespaces@.contains_key(other),
        other != nsid,
    ensures
        taken.namespaces@[nsid].ana(after.ana_states@) == state,
        taken.namespaces@[other].ana(after.ana_states@) == taken.namespaces@[other].ana(
            before.ana_states@,
        ),
{
}

/// Everything a queue thread needs to serve one port: the subsystems reachable
/// through it.
#[derive(Debug)]
pub struct PortConfig<B> {
    /// Listen address, as advertised in the discovery log.
    pub traddr: String,
    /// Port number as a string (`trsvcid`).
    pub trsvcid: String,
    /// Transport serving this port (TRTYPE in discovery entries).
    pub trtype: TransportType,
    /// Highest IO queue id offered to controllers (= the port's IO-thread
    /// count; every subsystem on the port shares it).
    pub max_qid: u16,
    /// Advertised IO MAXCMD ceiling (Identify Controller): the maximum IO
    /// queue depth in entries the host may use. The host clamps each IO queue
    /// to `min(its queue-size, this)`; the admin queue is unaffected. Bounded
    /// by `MAX_QUEUE_ENTRIES`.
    pub io_queue_size: u16,
    /// Per-IO-queue data-buffer pool size in bytes. Slots lease their
    /// read/write buffers from this shared arena on demand.
    pub queue_buf_bytes: usize,
    /// Per-CONNECTION receive-ring size in bytes (`0` = ring off, the classic
    /// per-recv scratch buffer).
    pub recv_buf_bytes: usize,
    /// Poll mode: the transport busy-polls its completion sources on the queue
    /// thread instead of sleeping on events.
    pub poll: bool,
    /// The subsystems, each NQN once.
    pub subsystems: Vec<Subsystem<B>>,
}

/// Whether `v` holds the subsystem `nqn` at `i`, and nowhere before.
pub open spec fn first_at<B>(v: Seq<Subsystem<B>>, nqn: Seq<char>, i: int) -> bool {
    &&& 0 <= i < v.len()
    &&& v[i].nqn@ == nqn
    &&& forall|j: int| 0 <= j < i ==> (#[trigger] v[j]).nqn@ != nqn
}

/// Whether `v` has a subsystem `nqn`.
pub open spec fn serves<B>(v: Seq<Subsystem<B>>, nqn: Seq<char>) -> bool {
    exists|i: int| 0 <= i < v.len() && (#[trigger] v[i]).nqn@ == nqn
}

/// The endpoint of `ip` and the port `trsvcid` writes, where both are there.
pub open spec fn endpoint_of(ip: Option<addr::Ip>, trsvcid: Seq<char>) -> Option<addr::Endpoint> {
    match (ip, text::number_of(trsvcid, 0xffff)) {
        (Some(ip), Some(port)) => Some(addr::Endpoint { ip, port: port as u16 }),
        _ => None,
    }
}

impl<B: Backend> PortConfig<B> {
    /// Where the subsystem `nqn` stands in the list.
    pub fn position(&self, nqn: &str) -> (r: Option<usize>)
        ensures
            match r {
                Some(i) => first_at(self.subsystems@, nqn@, i as int),
                None => !serves(self.subsystems@, nqn@),
            },
    {
        let n: usize = self.subsystems.len();
        for i in 0..n
            invariant
                n == self.subsystems@.len(),
                forall|j: int| 0 <= j < i ==> (#[trigger] self.subsystems@[j]).nqn@ != nqn@,
        {
            if same_text(self.subsystems[i].nqn.as_str(), nqn) {
                return Some(i);
            }
        }
        None
    }

    /// Look up a subsystem by NQN.
    pub fn subsystem(&self, nqn: &str) -> (r: Option<&Subsystem<B>>)
        ensures
            match r {
                Some(s) => exists|i: int|
                    #![trigger self.subsystems@[i]]
                    first_at(self.subsystems@, nqn@, i) && *s == self.subsystems@[i],
                None => !serves(self.subsystems@, nqn@),
            },
    {
        match self.position(nqn) {
            Some(i) => {
                assert(first_at(self.subsystems@, nqn@, i as int));
                Some(&self.subsystems[i])
            },
            None => None,
        }
    }

    /// The endpoint this port serves on, put back together from the strings
    /// the discovery log carries; `ip` is what `traddr` reads as. `None` for a
    /// transport whose `traddr` is not an IP address at all, or an unparseable
    /// `trsvcid`.
    pub fn listen_addr(&self, ip: Option<IpAddr>) -> (r: Option<SocketAddr>)
        ensures
            match r {
                Some(a) => ip is Some && endpoint_of(Some(ip->0@), self.trsvcid@) == Some(a@),
                None => ip is None || endpoint_of(Some(ip->0@), self.trsvcid@) is None,
            },
    {
        match (ip, parse_number(&chars_of(self.trsvcid.as_str()), 0xffff)) {
            (Some(i), Some(port)) => Some(SocketAddr::new(i, port as u16)),
            _ => None,
        }
    }
}

/// Who is let in: everybody where any host is, else those on the list and no one
/// else.
pub proof fn lemma_admission(acl: Admission, hostnqn: Seq<char>)
    ensures
        acl.any ==> admitted(acl, hostnqn),
        !acl.any ==> (admitted(acl, hostnqn) <==> exists|i: int|
            0 <= i < acl.hosts.len() && #[trigger] acl.hosts[i] == hostnqn),
{
}

/// Of two discovery generations the later one is taken, and no third.
pub proof fn lemma_later(ctr: u64, epoch: u64)
    ensures
        later(ctr, epoch) == ctr || later(ctr, epoch) == epoch,
        later(ctr, epoch) >= ctr,
        later(ctr, epoch) >= epoch,
{
}

/// An endpoint is the address and the port that the text writes, where both are
/// there: a port past the largest is none.
pub proof fn lemma_endpoint_of(ip: addr::Ip, port: nat)
    ensures
        port <= 65535 ==> endpoint_of(Some(ip), text::decimal(port)) == Some(
            addr::Endpoint { ip, port: port as u16 },
        ),
        port > 65535 ==> endpoint_of(Some(ip), text::decimal(port)) is None,
        endpoint_of(None, text::decimal(port)) is None,
{
    text::lemma_decimal(port);
    let s = text::decimal(port);
    assert(text::is_digit(s[0]));
    if port <= 65535 {
        text::lemma_number_of_decimal(port, 65535);
    }
}

/// A name is found where it stands first, and only where there is a subsystem of
/// that name.
pub proof fn lemma_first_at<B>(v: Seq<Subsystem<B>>, nqn: Seq<char>, i: int, j: int)
    ensures
        first_at(v, nqn, i) ==> v[i].nqn@ == nqn && serves(v, nqn),
        first_at(v, nqn, i) && 0 <= j < v.len() && v[j].nqn@ == nqn ==> i <= j,
        serves(v, nqn) <==> exists|k: int| 0 <= k < v.len() && (#[trigger] v[k]).nqn@ == nqn,
{
}

} // verus!
