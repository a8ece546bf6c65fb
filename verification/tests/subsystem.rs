//! Subsystems: namespaces, host admission, paths, ANA groups, discovery
//! generations; and how addresses are written.

use std::sync::Arc;

use ioutgt::addr::{IpAddr, SocketAddr};
use ioutgt::nstable::{AnaBook, Namespace, NsMap};
use ioutgt::null::NullBackend;
use ioutgt::subsystem::{HostAcl, NsCache, Subsystem, SubsystemPort, TransportType};

fn ns(s: &mut Subsystem<NullBackend>, nsid: u32, size: u64) -> Namespace<NullBackend> {
    let backend = Arc::new(NullBackend::new(size, 9));
    Namespace::new(nsid, backend, [nsid as u8; 16], &mut s.ana_states)
}

fn add(s: &mut Subsystem<NullBackend>, nsid: u32, size: u64) -> Result<(), String> {
    let ns = ns(s, nsid, size);
    s.add_namespace(ns)
}

fn empty(hosts: HostAcl) -> Subsystem<NullBackend> {
    Subsystem::new(
        "nqn.a".to_string(),
        "S".to_string(),
        "M".to_string(),
        hosts,
        NsMap::new(),
        AnaBook::new(),
    )
}

fn texts(v: &[&str]) -> Vec<String> {
    v.iter().map(|t| t.to_string()).collect()
}

#[test]
fn namespaces_come_and_go() {
    let mut s = empty(HostAcl::any());
    assert_eq!((s.generation(), s.max_nsid(), s.total_capacity()), (1, 0, 0));
    add(&mut s, 7, 1 << 20).unwrap();
    add(&mut s, 3, 1 << 21).unwrap();
    assert_eq!(add(&mut s, 7, 1 << 20).unwrap_err(), "nsid 7 already exists");
    assert_eq!((s.generation(), s.max_nsid()), (3, 7));
    assert_eq!(s.total_capacity(), 3 << 20);
    let order: Vec<u32> = s.snapshot().entries().iter().map(|n| n.nsid).collect();
    assert_eq!(order, vec![3, 7]);

    s.remove_namespace(7).unwrap();
    assert_eq!(s.remove_namespace(7).unwrap_err(), "nsid 7 not found");
    assert_eq!((s.generation(), s.max_nsid()), (4, 3));
    assert_eq!(s.total_capacity(), 2 << 20);
    assert_eq!((s.mnan(), s.with_mnan(Some(12)).mnan()), (0, 12));
}

#[test]
fn a_cached_table_is_refreshed_when_the_generation_moves() {
    let mut s = empty(HostAcl::any());
    let mut cache = NsCache::default();
    assert!(cache.get(&s).is_empty());
    add(&mut s, 1, 1 << 20).unwrap();
    assert_eq!(cache.get(&s).len(), 1);
    s.remove_namespace(1).unwrap();
    assert!(!cache.get(&s).contains_key(1));
    assert_eq!(cache.generation, 3);
}

#[test]
fn a_cached_table_shows_the_ana_state_in_force() {
    let mut s = empty(HostAcl::any()).with_ana(true);
    add(&mut s, 1, 1 << 20).unwrap();
    let mut cache = NsCache::default();
    let code = |s: &Subsystem<NullBackend>, n: &Namespace<NullBackend>| {
        (n.ana_grpid(&s.ana_states), n.ana_state_code(&s.ana_states))
    };
    assert_eq!(code(&s, cache.get(&s).get(1).unwrap()), (1, 0x01));
    let generation = s.generation();
    let one = s.snapshot().get(1).unwrap().clone();
    assert!(s.set_ana_state(&one, 4, false));
    assert_eq!(s.generation(), generation, "the table itself did not change");
    assert_eq!(code(&s, cache.get(&s).get(1).unwrap()), (4, 0x02));
}

#[test]
fn an_ana_state_is_the_namespaces_own_in_the_table_or_out_of_it() {
    let mut s = empty(HostAcl::any()).with_ana(true);
    add(&mut s, 1, 1 << 20).unwrap();
    add(&mut s, 2, 1 << 20).unwrap();
    let taken = s.snapshot();
    let one = taken.get(1).unwrap();
    s.remove_namespace(1).unwrap();

    // Removed, and never added: the state changes, and the change counts.
    let lone = ns(&mut s, 9, 1 << 20);
    assert!(s.set_ana_state(one, 4, false));
    assert!(s.set_ana_state(&lone, 4, false));
    assert!(!s.set_ana_state(&lone, 4, false));
    assert_eq!(s.ana_chgcnt(), 3);
    assert_eq!(one.ana_grpid(&s.ana_states), 4);
    assert_eq!(lone.ana_state_code(&s.ana_states), 0x02);
    assert_eq!(taken.get(2).unwrap().ana_grpid(&s.ana_states), 1);

    // Another namespace of the same id starts afresh; the old one is what it
    // was.
    add(&mut s, 1, 1 << 20).unwrap();
    assert_eq!(s.snapshot().get(1).unwrap().ana_grpid(&s.ana_states), 1);
    assert_eq!(one.ana_grpid(&s.ana_states), 4);
    s.add_namespace(lone).unwrap();
    assert_eq!(s.snapshot().get(9).unwrap().ana_grpid(&s.ana_states), 4);
}

#[test]
fn hosts_are_admitted_by_the_acl() {
    let mut s = empty(HostAcl::listed(texts(&["nqn.h1"])));
    assert!(s.admits("nqn.h1") && !s.admits("nqn.h2"));
    assert!(!s.set_host_acl(HostAcl::listed(texts(&["nqn.h1"]))));
    assert!(s.set_host_acl(HostAcl::listed(texts(&["nqn.h2"]))));
    assert!(!s.admits("nqn.h1") && s.admits("nqn.h2"));
    assert!(s.set_host_acl(HostAcl::any()));
    assert!(s.admits("nqn.h1") && s.host_acl().allow_any_host);
}

#[test]
fn ana_groups_only_grow() {
    let mut s = empty(HostAcl::any()).with_ana(true);
    assert_eq!(s.ana_zones(), &vec![1]);
    assert!(s.merge_ana_zones(&[9, 4, 9]));
    assert_eq!((s.ana_zones(), s.ana_chgcnt()), (&vec![1, 4, 9], 2));
    assert!(!s.merge_ana_zones(&[4]));
    assert_eq!(s.ana_chgcnt(), 2);

    add(&mut s, 1, 1 << 20).unwrap();
    let one = s.snapshot().get(1).unwrap().clone();
    assert_eq!(one.ana_state_code(&s.ana_states), 0x01);
    assert!(s.set_ana_state(&one, 4, false));
    assert!(!s.set_ana_state(&one, 4, false));
    assert_eq!(one.ana_state_code(&s.ana_states), 0x02);
    assert_eq!(s.ana_chgcnt(), 3);
}

#[test]
fn the_discovery_generation_never_falls() {
    let mut s = empty(HostAcl::any());
    assert!(s.observe_disc_genctr(6));
    s.bump_disc_genctr();
    assert_eq!(s.disc_genctr(), 7);
    assert!(!s.observe_disc_genctr(7) && !s.observe_disc_genctr(2));
    assert_eq!(s.disc_genctr(), 7);
}

#[test]
fn setting_the_same_paths_changes_nothing() {
    let path = |addr: &str| SubsystemPort {
        trtype: TransportType::Tcp,
        traddr: addr.to_string(),
        trsvcid: "4420".to_string(),
        portid: 0,
    };
    let mut s = empty(HostAcl::any()).with_ports(vec![path("10.0.0.1")]);
    assert!(!s.set_ports(vec![path("10.0.0.1")]));
    assert!(s.set_ports(vec![path("10.0.0.1"), path("10.0.0.2")]));
    assert_eq!(s.ports().len(), 2);
    assert_eq!(s.disc_genctr(), 1, "the bump is the caller's");
}

#[test]
fn addresses_are_written_in_their_canonical_form() {
    let v6 = |o: [u8; 16]| IpAddr::V6(o).to_text();
    assert_eq!(IpAddr::V4([192, 168, 0, 9]).to_text(), "192.168.0.9");
    assert_eq!(v6([0; 16]), "::");
    let mut loopback = [0u8; 16];
    loopback[15] = 1;
    assert_eq!(v6(loopback), "::1");
    let mut fd = [0u8; 16];
    (fd[0], fd[5], fd[15]) = (0xfd, 1, 0xab);
    assert_eq!(v6(fd), "fd00:0:1::ab");
    assert_eq!(
        v6([0, 1, 0, 2, 0, 0, 0, 4, 0, 5, 0, 6, 0, 7, 0, 8]),
        "1:2:0:4:5:6:7:8"
    );
    let mapped = [0, 0, 0, 0, 0, 0, 0, 0, 0, 0, 0xff, 0xff, 10, 0, 0, 1];
    assert_eq!(v6(mapped), "::ffff:10.0.0.1");
    assert_eq!(
        SocketAddr::new(IpAddr::V6(loopback), 4420).to_text(),
        "[::1]:4420"
    );
    assert_eq!(
        SocketAddr::new(IpAddr::V4([0; 4]), 7000).to_text(),
        "0.0.0.0:7000"
    );
    assert!(IpAddr::V6([0; 16]).is_unspecified());
}
