//! What a target decides: controller-id partitions, paths, placement, ACLs,
//! threads, connections and shutdown.

use std::sync::Arc;

use ioutgt::addr::{IpAddr, SocketAddr};
use ioutgt::backend::Backend;
use ioutgt::config::{BackendConfig, NamespaceConfig, SheepdogAcl, SubsystemConfig};
use ioutgt::harness::acl::{
    export, member_namespace, refresh_cluster_acl, refresh_cluster_namespaces,
};
use ioutgt::harness::ana::{refresh_cluster_ana, ClusterAnaState};
use ioutgt::harness::cluster::{refresh_clusters, ClusterAcl, Clusters, Visit};
use ioutgt::harness::cntlid::{
    holder_cntlid_slice, lower_slot, port_cntlid_slice, HolderSlot, CNTLID_MAX,
};
use ioutgt::harness::control::{
    build_pool, route, thread_cpus, Control, IdleTeardown, Route, Verdict, MAX_CONNECTIONS,
};
use ioutgt::harness::paths::{apply_holders, track_cluster_paths, PathRefresh, PathStep};
use ioutgt::harness::port::{
    build_port, build_subsystem, listen_port, ClusterNs, ClusterVdi, Opened,
};
use ioutgt::harness::shutdown::{signal_name, time_left, Process};
use ioutgt::harness::stats::{zeroed_stats, QueueEntry, RingStats};
use ioutgt::harness::target::{
    announcement, may_fork, port_count, refuse_live_socket, PortTarget, TargetConfig,
};
use ioutgt::harness::thread::{
    Change, ChangeNudge, ConnHandles, Deed, Drain, Msg, QueueThread, CONN_DRAIN_BUDGET_MS,
};
use ioutgt::null::NullBackend;
use ioutgt::queue::QueueStats;
use ioutgt::sheepdog::calls::VdiHolder;
use ioutgt::sheepdog::inode::{AclState, VdiInfo};
use ioutgt::sheepdog::wire::VDI_MAX_HOLDERS;
use ioutgt::subsystem::{Subsystem, TransportType};
use ioutgt::uuid::namespace_uuid;

fn slot(slot: u16) -> Option<HolderSlot> {
    Some(HolderSlot { vid: 0x4712, slot })
}

#[test]
fn holder_slots_get_disjoint_cntlid_partitions() {
    let full: (u16, u16) = (1, CNTLID_MAX);
    // No cluster storage: the target owns everything it was given.
    assert_eq!(holder_cntlid_slice(full, None), full);

    // Every slot's partition, end to end: they tile the range without a
    // gap or an overlap, so no two targets can mint the same cntlid.
    let slices: Vec<(u16, u16)> = (0..VDI_MAX_HOLDERS)
        .map(|i| holder_cntlid_slice(full, slot(i)))
        .collect();
    assert_eq!(slices[0].0, full.0);
    assert_eq!(slices[usize::from(VDI_MAX_HOLDERS) - 1].1, full.1);
    for pair in slices.windows(2) {
        assert!(pair[0].0 <= pair[0].1, "partition {pair:?} is empty");
        assert_eq!(pair[1].0, pair[0].1 + 1, "partitions {pair:?} not adjacent");
    }

    // A slice already narrowed per port is subdivided the same way...
    let (min, max) = holder_cntlid_slice((1, 1000), slot(1));
    assert_eq!((min, max), (33, 64));
    // ...until there is nothing left to cut, when the whole slice is kept
    // rather than handing out an empty one.
    assert_eq!(holder_cntlid_slice((1, 20), slot(1)), (1, 20));

    // A slot the cluster cannot have handed out is not trusted either.
    assert_eq!(holder_cntlid_slice(full, slot(VDI_MAX_HOLDERS)), full);
}

#[test]
fn ports_share_the_cntlids_out() {
    assert_eq!(port_cntlid_slice(0, 1), (1, CNTLID_MAX));
    let (a, b, c) = (
        port_cntlid_slice(0, 3),
        port_cntlid_slice(1, 3),
        port_cntlid_slice(2, 3),
    );
    assert_eq!(a.0, 1);
    assert_eq!((b.0, c.0), (a.1 + 1, b.1 + 1));
    assert_eq!(c.1, CNTLID_MAX);

    let (low, high) = (
        Some(HolderSlot { vid: 3, slot: 9 }),
        Some(HolderSlot { vid: 5, slot: 1 }),
    );
    assert_eq!(lower_slot(None, high), high);
    assert_eq!(lower_slot(high, low), low);
    assert_eq!(lower_slot(low, high), low);
    assert_eq!(lower_slot(low, None), low);
}

#[test]
fn socket_probe_distinguishes_live_stale_missing() {
    // Missing and stale: nobody answers, nothing to protect.
    assert!(refuse_live_socket("/run/ctl.sock", false).is_ok());
    // Live: a bound listener owns the path — must refuse.
    assert_eq!(
        refuse_live_socket("/run/ctl.sock", true).unwrap_err(),
        "control socket /run/ctl.sock is owned by a running instance"
    );
}

fn v4(last: u8, port: u16) -> SocketAddr {
    SocketAddr::new(IpAddr::V4([10, 0, 0, last]), port)
}

fn null() -> Arc<NullBackend> {
    Arc::new(NullBackend::new(1 << 20, 9))
}

fn namespace(nsid: u32, uuid: Option<[u8; 16]>) -> NamespaceConfig {
    NamespaceConfig {
        nsid,
        backend: BackendConfig::Null { size_mb: 1 },
        uuid,
    }
}

fn subsystem_config(nqn: &str, namespaces: Vec<NamespaceConfig>) -> SubsystemConfig {
    SubsystemConfig {
        nqn: nqn.to_string(),
        serial: "S".to_string(),
        model: "M".to_string(),
        allow_any_host: false,
        allowed_hosts: vec!["nqn.host".to_string()],
        sheepdog_acl: None,
        mnan: Some(7),
        namespaces,
    }
}

/// A cluster volume; its number is told apart from its vid by the top bit.
fn on_cluster(cluster: SocketAddr, vid: u32, owner: Option<SocketAddr>) -> Option<ClusterVdi> {
    Some(ClusterVdi {
        cluster,
        vid,
        owner,
        volume: volume_of(vid),
    })
}

fn volume_of(vid: u32) -> u64 {
    1 << 63 | u64::from(vid)
}

/// Namespace `nsid` on the volume `vid`, its ANA state in `cell`.
fn cluster_ns(nsid: u32, cell: usize, vid: u32) -> ClusterNs {
    ClusterNs {
        nsid,
        cell,
        volume: volume_of(vid),
        vid,
    }
}

fn opened(uuid: Option<[u8; 16]>, vdi: Option<ClusterVdi>) -> Opened<NullBackend> {
    Opened {
        backend: null(),
        uuid,
        vdi,
    }
}

#[test]
fn a_subsystem_is_built_from_what_its_namespaces_opened_as() {
    let (near, far, us) = (v4(1, 7000), v4(2, 7000), v4(9, 4420));
    let mut spec = subsystem_config(
        "nqn.a",
        vec![
            namespace(1, Some([1; 16])),
            namespace(2, None),
            namespace(3, None),
            namespace(4, None),
        ],
    );
    spec.sheepdog_acl = Some(SheepdogAcl {
        cluster: near,
        vid: 0x10,
        epoch: 12,
        lock: true,
    });
    let built = build_subsystem(
        &spec,
        &vec![
            opened(Some([9; 16]), None),
            opened(Some([2; 16]), on_cluster(far, 0x22, None)),
            opened(None, on_cluster(near, 0x23, Some(us))),
            opened(None, on_cluster(far, 0x24, Some(us))),
        ],
        us,
        TransportType::Tcp,
        true,
    );
    let s = &built.subsystem;
    // The configured identity, the storage's own, a derived one.
    assert_eq!(s.namespaces.get(1).unwrap().uuid, [1; 16]);
    assert_eq!(s.namespaces.get(2).unwrap().uuid, [2; 16]);
    assert_eq!(
        s.namespaces.get(3).unwrap().uuid,
        namespace_uuid("nqn.a", 3)
    );
    assert!(s.ana() && s.admits("nqn.host") && !s.admits("nqn.other"));
    assert_eq!((s.mnan(), s.disc_genctr()), (7, 12));
    // Only what took a registration; every cluster volume, by cluster.
    assert_eq!(
        built.registered.iter().map(|r| r.0).collect::<Vec<_>>(),
        vec![cluster_ns(3, 2, 0x23), cluster_ns(4, 3, 0x24)]
    );
    let ana: Vec<_> = built
        .ana
        .iter()
        .map(|a| (a.cluster, a.namespaces.clone()))
        .collect();
    assert_eq!(
        ana,
        vec![
            (near, vec![cluster_ns(3, 2, 0x23)]),
            (far, vec![cluster_ns(2, 1, 0x22), cluster_ns(4, 3, 0x24)]),
        ]
    );
    assert_eq!(built.acl.unwrap().acl.vid, 0x10);
}

#[test]
fn a_port_serves_each_nqn_once_and_in_order() {
    let cluster = v4(1, 7000);
    let specs: Vec<SubsystemConfig> = [("nqn.b", 1), ("nqn.a", 2), ("nqn.b", 3)]
        .into_iter()
        .map(|(nqn, mnan)| {
            let mut spec = subsystem_config(nqn, vec![namespace(mnan, None)]);
            spec.mnan = Some(mnan);
            spec
        })
        .collect();
    let opened = vec![
        vec![opened(None, on_cluster(cluster, 0x41, Some(v4(9, 4420))))],
        vec![opened(None, None)],
        vec![opened(None, None)],
    ];
    let config = TargetConfig::single_memory("nqn.x", 64, 8);
    let built = build_port(
        config.limits(),
        v4(9, 4420),
        TransportType::Rdma,
        &specs,
        &opened,
    );
    let port = built.port;
    let seen: Vec<_> = port
        .subsystems
        .iter()
        .map(|s| (s.nqn.as_str(), s.mnan(), s.max_nsid(), s.ana()))
        .collect();
    assert_eq!(seen, vec![("nqn.a", 2, 2, false), ("nqn.b", 3, 3, false)]);
    // What each configuration revealed comes back, the replaced one's too.
    let found: Vec<_> = built
        .found
        .iter()
        .map(|f| (f.nqn.as_str(), f.registered.len(), f.ana.len()))
        .collect();
    assert_eq!(
        found,
        vec![("nqn.b", 1, 1), ("nqn.a", 0, 0), ("nqn.b", 0, 0)]
    );
    // So does the subsystem that is not served.
    let displaced: Vec<_> = built
        .found
        .iter()
        .map(|f| f.displaced.as_ref().map(|s| (s.mnan(), s.max_nsid(), s.ana())))
        .collect();
    assert_eq!(displaced, vec![Some((1, 1, true)), None, None]);
    assert_eq!((port.traddr.as_str(), port.trsvcid.as_str()), ("10.0.0.9", "4420"));
    assert_eq!((port.max_qid, port.io_queue_size), (2, 128));
    assert_eq!(port.queue_buf_bytes, 8 << 20);
    assert_eq!(port.subsystem("nqn.b").unwrap().mnan(), 3);
    assert!(port.subsystem("nqn.c").is_none());
}

fn plain_subsystem(nqn: &str, nsids: &[u32]) -> Subsystem<NullBackend> {
    let spec = subsystem_config(nqn, nsids.iter().map(|&n| namespace(n, None)).collect());
    let opened = nsids.iter().map(|_| opened(None, None)).collect();
    build_subsystem(&spec, &opened, v4(9, 4420), TransportType::Tcp, false).subsystem
}

fn holder(addr: SocketAddr, index: u16) -> VdiHolder {
    VdiHolder {
        addr,
        index,
        registrations: 1,
    }
}

#[test]
fn holders_become_the_path_list() {
    let (cluster, us, peer) = (v4(1, 7000), v4(9, 4420), v4(3, 4420));
    let registered = vec![
        (cluster_ns(5, 0, 0x50), on_cluster(cluster, 0x50, Some(us)).unwrap()),
        (cluster_ns(6, 1, 0x60), on_cluster(v4(2, 7000), 0x60, Some(us)).unwrap()),
        (cluster_ns(4, 2, 0x40), on_cluster(cluster, 0x40, Some(us)).unwrap()),
    ];
    let paths = track_cluster_paths(&registered, TransportType::Tcp, 3).unwrap();
    // Volumes on a second cluster do not contribute paths.
    assert_eq!(paths.namespaces, vec![cluster_ns(5, 0, 0x50), cluster_ns(4, 2, 0x40)]);
    assert!(track_cluster_paths(&vec![], TransportType::Tcp, 3).is_none());

    let mut s = plain_subsystem("nqn.a", &[4, 5]);
    let held = vec![
        vec![holder(us, 0), holder(peer, 1)],
        vec![holder(peer, 0), holder(us, 4)],
    ];
    // Seeding: the list is set, the generation stays.
    let seeded = apply_holders(&paths, &held, false, &mut s);
    assert_eq!(seeded.slot, Some(HolderSlot { vid: 0x40, slot: 4 }));
    assert!(!seeded.notify);
    let list: Vec<_> = s
        .ports()
        .iter()
        .map(|p| (p.traddr.as_str(), p.trsvcid.as_str(), p.portid))
        .collect();
    assert_eq!(list, vec![("10.0.0.3", "4420", 0), ("10.0.0.9", "4420", 1)]);
    assert_eq!(s.disc_genctr(), 1);

    // The same holders change nothing; a holder that left does.
    assert!(!apply_holders(&paths, &held, true, &mut s).notify);
    let alone = vec![vec![holder(us, 0)], vec![holder(us, 4)]];
    assert!(apply_holders(&paths, &alone, true, &mut s).notify);
    assert_eq!((s.ports().len(), s.disc_genctr()), (1, 2));

    // Nobody holding anything leaves the list as it was.
    let nobody = apply_holders(&paths, &vec![vec![], vec![]], true, &mut s);
    assert_eq!((nobody.slot, nobody.notify), (None, false));
    assert_eq!(s.ports().len(), 1);
}

#[test]
fn a_lost_registration_is_retaken_unless_shutting_down() {
    let (cluster, us) = (v4(1, 7000), v4(9, 4420));
    let registered = vec![
        (cluster_ns(4, 0, 0x40), on_cluster(cluster, 0x40, Some(us)).unwrap()),
        (cluster_ns(5, 1, 0x50), on_cluster(cluster, 0x50, Some(us)).unwrap()),
    ];
    let paths = track_cluster_paths(&registered, TransportType::Tcp, 0).unwrap();
    let read = || Some(vec![vec![], vec![holder(us, 0)]]);
    assert!(PathRefresh::start(&paths, read(), true).is_none());
    assert!(PathRefresh::start(&paths, None, false).is_none());

    let mut refresh = PathRefresh::start(&paths, read(), false).unwrap();
    assert_eq!(refresh.next(), PathStep::Reregister(0));
    refresh.reregistered(true);
    assert_eq!(refresh.next(), PathStep::Reread);
    refresh.reread(Some(vec![vec![holder(us, 1)], vec![holder(us, 0)]]));
    assert_eq!(refresh.next(), PathStep::Settled);
    assert_eq!(refresh.holders[0].len(), 1);

    // Refused, there is nothing new to read.
    let mut refused = PathRefresh::start(&paths, read(), false).unwrap();
    refused.reregistered(false);
    assert_eq!(refused.next(), PathStep::Settled);
}

#[test]
fn placement_moves_namespaces_between_groups() {
    let mut s = plain_subsystem("nqn.a", &[1, 2, 3]);
    let namespaces = vec![cluster_ns(1, 0, 0x10), cluster_ns(2, 1, 0x20), cluster_ns(3, 2, 0x30)];
    let state = ClusterAnaState {
        zones: vec![4, 2],
        grpids: vec![Some(2), Some(4), None],
        own_zone: Some(4),
    };
    let earlier = s.snapshot();
    let change = refresh_cluster_ana(&namespaces, &state, &mut s);
    assert_eq!((change.changed, change.moved), (true, vec![0, 1]));
    // A zone more, and two namespaces that moved.
    assert_eq!(s.ana_chgcnt(), 4);
    let seen: Vec<_> = [1, 2, 3]
        .iter()
        .map(|&n| {
            let ns = s.namespaces.get(n).unwrap();
            (ns.ana_grpid(&s.ana_states), ns.ana_optimized(&s.ana_states))
        })
        .collect();
    assert_eq!(seen, vec![(2, false), (4, true), (1, true)]);
    // A table taken before shows the same.
    assert_eq!(earlier.get(1).unwrap().ana_grpid(&s.ana_states), 2);
    assert_eq!(s.ana_zones(), &vec![2, 4]);
    // Nothing moved: nothing to tell.
    let again = refresh_cluster_ana(&namespaces, &state, &mut s);
    assert_eq!((again.changed, again.moved), (false, vec![]));
    assert_eq!(s.ana_chgcnt(), 4);
}

#[test]
fn a_namespace_that_lost_its_place_in_the_table_is_still_placed() {
    // Two namespaces of one id: the later has the table's place, both are kept
    // track of, each on its own volume.
    let (cluster, us) = (v4(1, 7000), v4(9, 4420));
    let spec = subsystem_config("nqn.a", vec![namespace(1, None), namespace(1, None)]);
    let built = build_subsystem(
        &spec,
        &vec![
            opened(None, on_cluster(cluster, 0x10, Some(us))),
            opened(None, on_cluster(cluster, 0x20, Some(us))),
        ],
        us,
        TransportType::Tcp,
        false,
    );
    let mut s = built.subsystem;
    let mut clusters = Clusters::new();
    clusters.track_paths(
        track_cluster_paths(&built.registered, TransportType::Tcp, 7).unwrap(),
    );
    for spec in built.ana {
        clusters.track_cluster_ana(spec, 7);
    }
    let both = vec![cluster_ns(1, 0, 0x10), cluster_ns(1, 1, 0x20)];
    assert_eq!(clusters.paths[0].namespaces, both);
    assert_eq!(clusters.ana[0].namespaces, both);
    assert_eq!(s.namespaces.get(1).unwrap().cell, 1);

    // Only the one outside the table moves, which counts as a change.
    let state = ClusterAnaState {
        zones: vec![1, 3],
        grpids: vec![Some(3), Some(1)],
        own_zone: Some(1),
    };
    let change = refresh_cluster_ana(&both, &state, &mut s);
    assert_eq!((change.changed, change.moved), (true, vec![0]));
    assert_eq!(s.ana_chgcnt(), 3);
    assert_eq!(s.namespaces.get(1).unwrap().ana_grpid(&s.ana_states), 1);

    // Untracking the volume of the one in the table leaves the other.
    clusters.untrack_cluster_backend(7, volume_of(0x20));
    assert_eq!(clusters.paths[0].namespaces, both[..1]);
    assert_eq!(clusters.ana[0].namespaces, both[..1]);
}

fn member(vid: u32, name: &str, snapshot: bool) -> VdiInfo {
    VdiInfo {
        name: name.to_string(),
        tag: String::new(),
        vid,
        size: 1 << 20,
        snapshot,
        uuid: None,
        acl: 0x10,
    }
}

fn cluster_acl() -> ClusterAcl {
    ClusterAcl {
        cluster: v4(1, 7000),
        vid: 0x10,
        subsystem: 0,
        lock: true,
        fabric: v4(9, 4420),
        ring_enabled: false,
        trtype: TransportType::Tcp,
    }
}

#[test]
fn a_subsystem_follows_its_acl() {
    let acl = cluster_acl();
    let mut s = plain_subsystem("nqn.acl", &[0x20, 0x21, 0x77]);
    let change = refresh_cluster_acl(
        &mut s,
        &AclState {
            hosts: vec![],
            epoch: 5,
        },
    );
    assert!(change.discovery && change.hosts);
    assert!(s.admits("nqn.anybody"));
    assert_eq!(s.disc_genctr(), 5);

    // 0x20 is no member any more, 0x77 came from elsewhere; 0x30 and 0x28 are
    // new, 0x29 is a snapshot.
    let members = vec![
        member(0x30, "late", false),
        member(0x21, "kept", false),
        member(0x29, "frozen", true),
        member(0x28, "early", false),
    ];
    let origins = vec![(0x20, acl.cluster), (0x21, acl.cluster), (0x77, v4(5, 7000))];
    let plan = refresh_cluster_namespaces(&s, &origins, &members, &acl.cluster);
    assert_eq!(plan.remove, vec![0x20]);
    assert_eq!(plan.open, vec![3, 0]);

    let ns = member_namespace(&acl, "nqn.acl", &members[3]);
    assert_eq!(ns.nsid, 0x28);
    assert_eq!(ns.uuid, Some(namespace_uuid("sheepdog:early", 0x28)));
    match ns.backend {
        BackendConfig::Sheepdog {
            addr, vdi, acl, lock, ..
        } => {
            assert_eq!((addr.as_str(), vdi.as_str()), ("10.0.0.1:7000", "early"));
            assert_eq!((acl.as_deref(), lock), (Some("nqn.acl"), true));
        }
        other => panic!("expected a sheepdog backend, got {other:?}"),
    }
}

#[test]
fn exported_namespaces_are_tracked_until_they_go() {
    let acl = cluster_acl();
    let mut clusters = Clusters::new();
    let mut s = plain_subsystem("nqn.acl", &[]);
    let vdi = on_cluster(acl.cluster, 0x28, Some(acl.fabric)).unwrap();
    let ns = ioutgt::nstable::Namespace::new(0x28, null(), [3; 16], &mut s.ana_states);
    let taken = export(&mut clusters, &mut s, 0, ns, vdi, acl.trtype).unwrap();
    // The first of its subsystem makes a path entry; ANA has none to join.
    assert!(taken.fresh_paths && !taken.ana);
    assert_eq!(clusters.paths[0].namespaces, vec![cluster_ns(0x28, 0, 0x28)]);

    let again = ioutgt::nstable::Namespace::new(0x28, null(), [3; 16], &mut s.ana_states);
    assert_eq!(
        export(&mut clusters, &mut s, 0, again, vdi, acl.trtype).unwrap_err(),
        "nsid 40 already exists"
    );
    assert_eq!(
        refresh_clusters(&clusters, false),
        vec![Visit::Paths(0)]
    );
    assert!(refresh_clusters(&clusters, true).is_empty());

    s.remove_namespace(0x28).unwrap();
    clusters.untrack_cluster_backend(0, volume_of(0x28));
    assert_eq!(s.remove_namespace(0x28).unwrap_err(), "nsid 40 not found");
    assert!(clusters.paths[0].namespaces.is_empty());
    clusters.stop_cluster_refresh();
    assert!(refresh_clusters(&clusters, false).is_empty());
}

#[test]
fn connections_are_bounded_and_the_idle_pool_goes() {
    let second: u128 = 1_000_000_000;
    let mut control = Control::new(Some(30 * second));
    assert!(!control.accepted(false));
    assert!(control.accepted(true), "the pool is down");
    assert!(matches!(control.take_place(), Verdict::NoPool));
    control.pool_spawned(true);
    let mut permits = Vec::new();
    for _ in 0..MAX_CONNECTIONS {
        match control.take_place() {
            Verdict::Admitted(p) => permits.push(p),
            other => panic!("unexpected verdict {other:?}"),
        }
    }
    assert!(matches!(control.take_place(), Verdict::Full));
    assert!(!control.tick(0) && !control.tick(100 * second));
    for p in permits {
        control.closed(p);
    }
    // Idle from the first look on, torn down a grace period later.
    assert!(!control.tick(200 * second));
    assert!(!control.tick(229 * second));
    assert!(control.tick(230 * second) && !control.up);
    assert!(!control.tick(300 * second));
    assert!(!control.quiesce() && control.stopped);
}

#[test]
fn the_idle_poll_is_clamped() {
    let ms: u128 = 1_000_000;
    assert_eq!(IdleTeardown::new(Some(80 * ms)).period(), 100 * ms);
    assert_eq!(IdleTeardown::new(Some(4000 * ms)).period(), 1000 * ms);
    assert_eq!(IdleTeardown::new(Some(600_000 * ms)).period(), 5000 * ms);
    assert_eq!(IdleTeardown::new(None).period(), 3_600_000 * ms);
    let mut never = IdleTeardown::new(None);
    assert!(!never.maybe_teardown(true, 0, u128::MAX));
}

#[test]
fn queues_are_dealt_out_over_the_io_threads() {
    assert_eq!(route(0, 0), Route::Admin);
    assert_eq!(route(5, 0), Route::Nowhere);
    assert_eq!(route(1, 4), Route::Io(0));
    assert_eq!(route(6, 4), Route::Io(1));

    let (cpus, groups) = thread_cpus(false, 2, None);
    assert_eq!(cpus, vec![None, None]);
    assert_eq!(groups, vec!["*".to_string(), "*".to_string()]);
    let pool = build_pool(&[Some(3), None]);
    let names: Vec<_> = pool.iter().map(|t| (t.name.as_str(), t.cpu)).collect();
    assert_eq!(
        names,
        vec![
            ("ioutgt-admin", None),
            ("ioutgt-io0", Some(3)),
            ("ioutgt-io1", None)
        ]
    );
}

fn handles(conn: u64, reads: u64, discovery: bool) -> ConnHandles {
    let mut stats = QueueStats::new(1);
    stats.read_cmds = reads;
    ConnHandles {
        stats: QueueEntry {
            stats,
            wr: None,
            conn,
            held: true,
        },
        changes: ChangeNudge {
            conn,
            ana: !discovery,
            discovery,
        },
    }
}

#[test]
fn an_admin_thread_tells_its_living_connections() {
    let ring = RingStats::default();
    let mut t = QueueThread::new(true);
    for (conn, discovery) in [(1, false), (2, true), (3, false)] {
        assert!(matches!(t.handle(Msg::Conn(conn), &[], &ring), Deed::Run));
        t.installed(conn, handles(conn, 10, discovery));
    }
    let mut raised = |t: &mut QueueThread, change: Change, ended: &[u64]| match t
        .handle(Msg::Changed(change), ended, &ring)
    {
        Deed::Raise(v) => v,
        other => panic!("unexpected deed {other:?}"),
    };
    assert_eq!(raised(&mut t, Change::Namespace, &[]), vec![1, 2, 3]);
    assert_eq!(raised(&mut t, Change::Ana, &[]), vec![1, 3]);
    assert_eq!(raised(&mut t, Change::Discovery, &[1]), vec![2]);
    assert_eq!(t.live.len(), 2, "the dead one was dropped");

    match t.handle(Msg::Shutdown, &[], &ring) {
        Deed::Stop(v) => assert_eq!(v, vec![1, 2, 3]),
        other => panic!("unexpected deed {other:?}"),
    }
    assert!(matches!(t.handle(Msg::Failed, &[], &ring), Deed::Leave));
}

#[test]
fn retired_queues_stay_in_the_totals_until_cleared() {
    let ring = RingStats::default();
    let mut t = QueueThread::new(false);
    for conn in [1, 2] {
        t.handle(Msg::Conn(conn), &[], &ring);
        t.installed(conn, handles(conn, 10 * conn, false));
    }
    assert!(t.live.is_empty(), "an IO thread keeps no nudges");
    let report = |d: Deed| match d {
        Deed::Answer(r) => r,
        other => panic!("unexpected deed {other:?}"),
    };
    let r = report(t.handle(Msg::Stats { clear: false }, &[1], &ring));
    assert_eq!(r.queues.len(), 1);
    assert_eq!(r.queues[0].counters[0], ("read_cmds", 20));
    assert_eq!(r.retired[0], ("read_cmds", 10));
    let r = report(t.handle(Msg::Stats { clear: true }, &[1], &ring));
    assert_eq!(r.retired[0], ("read_cmds", 10));
    let r = report(t.handle(Msg::Stats { clear: false }, &[1], &ring));
    assert_eq!(r.retired[0], ("read_cmds", 0));
    assert_eq!(r.queues[0].counters[0], ("read_cmds", 0));
    assert_eq!(zeroed_stats().ring[0], ("parks", 0));
    assert_eq!(t.conns.running(&[1]), 1);
}

#[test]
fn a_drain_gives_up_on_its_budget() {
    let mut drain = Drain::start();
    let mut polls: u32 = 0;
    while drain.wait(1) {
        drain.slept(true);
        polls += 1;
    }
    assert_eq!((drain.waited, polls), (CONN_DRAIN_BUDGET_MS, 2500));
    assert!(!Drain::start().wait(0));
    let mut broken = Drain::start();
    broken.slept(false);
    assert!(!broken.wait(1));
}

#[test]
fn a_shutdown_releases_every_namespace_once() {
    let mut process = Process::new();
    process.serving(7);
    let config = TargetConfig::single_memory("nqn.x", 64, 8);
    let port = listen_port(
        config.limits(),
        v4(9, 4420),
        TransportType::Tcp,
        vec![
            plain_subsystem("nqn.a", &[1, 2]),
            plain_subsystem("nqn.b", &[5]),
        ],
    );
    process.built(port);
    assert!(process.start_cluster_refresh() && !process.start_cluster_refresh());
    assert!(!process.shutting_down());
    assert_eq!(process.ports().len(), 1);

    assert_eq!(process.quiesce_targets(), vec![7]);
    assert!(process.shutting_down());
    let released = process.shutdown();
    assert_eq!(released.len(), 3);
    assert!(released.iter().all(|b| b.nr_blocks() == 2048));
    assert!(process.ports().is_empty());

    assert!(process.quiesce_targets().is_empty());
    assert!(process.shutdown().is_empty());
    assert_eq!((time_left(100, 40), time_left(100, 140)), (60, 0));
    assert_eq!(signal_name(2), "SIGINT");
    assert_eq!(signal_name(15), "SIGTERM");
    assert_eq!(signal_name(1), "signal");
}

#[test]
fn advertised_strings_lead_back_to_the_endpoint() {
    let config = TargetConfig::single_memory("nqn.x", 64, 8);
    let mut port = listen_port(
        config.limits(),
        v4(9, 65535),
        TransportType::Tcp,
        vec![plain_subsystem("nqn.a", &[1])],
    );
    let ip = IpAddr::V4([10, 0, 0, 9]);
    assert_eq!(port.listen_addr(Some(ip)), Some(v4(9, 65535)));
    assert_eq!(port.listen_addr(None), None);
    port.trsvcid = "65536".to_string();
    assert_eq!(port.listen_addr(Some(ip)), None);
    port.trsvcid = "nvme".to_string();
    assert_eq!(port.listen_addr(Some(ip)), None);
}

#[test]
fn a_file_overlays_the_target_model() {
    let mut config = TargetConfig::single_memory("nqn.x", 64, 8);
    assert_eq!(config.listen.to_text(), "0.0.0.0:4420");
    assert_eq!(config.cntlid_range, (1, CNTLID_MAX));
    config.control_socket = Some("/run/ctl".to_string());
    config.apply_file(
        PortTarget {
            portid: 4,
            listen: v4(2, 4421),
            subsystems: vec![],
        },
        1,
        2,
    );
    assert_eq!(config.listen, v4(2, 4421));
    assert!(config.subsystems.is_empty());
    assert_eq!(config.control_socket.as_deref(), Some("/run/ctl.port4"));
    assert_eq!(config.cntlid_range, port_cntlid_slice(1, 2));
    assert_eq!(config.io_threads, 2, "engine tuning stays");

    assert_eq!(port_count(3), Ok(3));
    assert_eq!(port_count(70_000), Err("too many ports".to_string()));
    assert!(may_fork(1, 9).is_ok() && may_fork(3, 1).is_ok());
    assert_eq!(
        may_fork(2, 9).unwrap_err(),
        "multi-port fork needs a single-threaded process (9 threads running)"
    );
    assert_eq!(
        announcement("ioutgt-tcp", &v4(2, 4421)),
        "ioutgt-tcp listening on 10.0.0.2:4421\n"
    );
}
