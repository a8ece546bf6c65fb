//! NIC interrupt parsing and backend specs.

use ioutgt::affinity::{
    distinct_irqs, effective, first_cpu, nic_irqs, parse_interrupts, NicIrqs, QueueSync, Step,
};
use ioutgt::cli::{parse_sheepdog, subsystems, Plan, Sheepdog};
use ioutgt::config::{BackendConfig, SubsystemConfig};

const SAMPLE: &str = "\
        201:  0  0  IR-PCI-MSIX-0000:02:00.0  0-edge  enp2s0f0np0\n\
        202:  10 0  IR-PCI-MSIX-0000:02:00.0  1-edge  enp2s0f0np0-TxRx-0\n\
        203:  5  0  IR-PCI-MSIX-0000:02:00.0  2-edge  enp2s0f0np0-TxRx-1\n\
        999:  1  0  IR-PCI-MSIX  3-edge  someother-TxRx-0\n";

#[test]
fn parses_combined_txrx_queues() {
    let irqs = parse_interrupts(SAMPLE, "enp2s0f0np0");
    assert_eq!(irqs.rx.get(&0), Some(&202));
    assert_eq!(irqs.tx.get(&0), Some(&202)); // combined: same IRQ
    assert_eq!(irqs.rx.get(&1), Some(&203));
    assert_eq!(irqs.nr_queues(), 2);
    // The bare "enp2s0f0np0" line (no -TxRx-N) and the other NIC are ignored.
    assert!(!irqs.rx.contains_key(&2));
}

#[test]
fn parses_split_rx_tx() {
    let text = "\
        10: 0 0 chip x-edge eth9-rx-0\n\
        11: 0 0 chip x-edge eth9-tx-0\n\
        12: 0 0 chip x-edge eth9-rx-1\n";
    let irqs = parse_interrupts(text, "eth9");
    assert_eq!(irqs.rx.get(&0), Some(&10));
    assert_eq!(irqs.tx.get(&0), Some(&11));
    assert_eq!(irqs.rx.get(&1), Some(&12));
    assert_eq!(irqs.tx.get(&1), None);
    assert_eq!(distinct_irqs(&irqs, 0), vec![10, 11]);
    assert_eq!(distinct_irqs(&irqs, 1), vec![12]);
}

#[test]
fn no_false_prefix_match() {
    // "eth1" must not match "eth10-TxRx-0".
    let text = "5: 0 0 chip edge eth10-TxRx-0\n";
    assert_eq!(parse_interrupts(text, "eth1"), NicIrqs::default());
}

#[test]
fn first_cpu_parses_lists() {
    assert_eq!(first_cpu("12"), Some(12));
    assert_eq!(first_cpu("12,44"), Some(12));
    assert_eq!(first_cpu("0-3"), Some(0));
    assert_eq!(first_cpu(""), None);
}

#[test]
fn a_nic_without_interrupts_is_an_error() {
    assert!(nic_irqs(SAMPLE, "eth7").unwrap_err().contains("eth7"));
    assert_eq!(nic_irqs(SAMPLE, "someother").unwrap().nr_queues(), 1);
}

const NQN: &str = "nqn.2026-06.io.ioutgt:flag";

fn built(spec: &str, mem_size_mb: u64, nqn: &str) -> Vec<SubsystemConfig> {
    match subsystems(spec, mem_size_mb, nqn).unwrap() {
        Plan::Built(v) => v,
        other => panic!("{spec}: unexpected plan {other:?}"),
    }
}

/// The single-subsystem forms, none of which touch the network: one
/// namespace under the NQN the flag named.
#[test]
fn simple_specs_give_one_namespace() {
    let mem = built("memory", 64, NQN);
    assert_eq!(mem.len(), 1);
    assert_eq!(mem[0].nqn, NQN);
    assert_eq!(mem[0].namespaces.len(), 1);
    assert_eq!(mem[0].namespaces[0].nsid, 1);
    assert!(matches!(
        mem[0].namespaces[0].backend,
        BackendConfig::Memory { size_mb: 64 }
    ));
    assert!(matches!(
        built("null", 8, NQN)[0].namespaces[0].backend,
        BackendConfig::Null { size_mb: 8 }
    ));
    match &built("/dev/nvme0n1", 64, NQN)[0].namespaces[0].backend {
        BackendConfig::File { path } => assert_eq!(path, "/dev/nvme0n1"),
        other => panic!("expected a file backend, got {other:?}"),
    }
}

fn vdi_spec(spec: &str) -> (String, String, Option<String>) {
    match parse_sheepdog(spec) {
        Ok(Sheepdog::Vdi(BackendConfig::Sheepdog { addr, vdi, tag, .. })) => (addr, vdi, tag),
        _ => panic!("{spec}: expected a single-VDI spec"),
    }
}

/// The ACL a single-VDI spec names, if any.
fn vdi_acl(spec: &str) -> Option<String> {
    match parse_sheepdog(spec) {
        Ok(Sheepdog::Vdi(BackendConfig::Sheepdog { acl, .. })) => acl,
        _ => panic!("{spec}: expected a single-VDI spec"),
    }
}

fn cluster_spec(spec: &str) -> String {
    match parse_sheepdog(spec) {
        Ok(Sheepdog::Cluster { addr, .. }) => addr,
        _ => panic!("{spec}: expected a cluster spec"),
    }
}

/// Whether `spec` asks for the VDI lock, either spec shape.
fn locks(spec: &str) -> bool {
    match parse_sheepdog(spec) {
        Ok(Sheepdog::Vdi(BackendConfig::Sheepdog { lock, .. })) => lock,
        Ok(Sheepdog::Cluster { lock, .. }) => lock,
        other => panic!("{spec}: unexpected parse {other:?}"),
    }
}

#[test]
fn sheepdog_vdi_specs_parse() {
    assert_eq!(
        vdi_spec("sheepdog:sheep0/vol"),
        ("sheep0:7000".into(), "vol".into(), None)
    );
    assert_eq!(
        vdi_spec("sheepdog:10.0.0.1:7001/vol@daily"),
        ("10.0.0.1:7001".into(), "vol".into(), Some("daily".into()))
    );
    assert_eq!(
        vdi_spec("sheepdog:[::1]:7000/vol"),
        ("[::1]:7000".into(), "vol".into(), None)
    );
    assert_eq!(
        vdi_spec("sheepdog:[fe80::1]/vol"),
        ("[fe80::1]:7000".into(), "vol".into(), None)
    );
    // An empty tag is the head, not a snapshot named "".
    assert_eq!(vdi_spec("sheepdog:sheep0/vol@").2, None);
}

#[test]
fn sheepdog_acl_scoping_parses() {
    assert_eq!(vdi_acl("sheepdog:sheep0/vol"), None);
    assert_eq!(
        vdi_acl("sheepdog:sheep0/vol%nqn.2026-06.io.ioutgt:grp"),
        Some("nqn.2026-06.io.ioutgt:grp".into())
    );
    // The ACL is stripped before the tag, and an NQN may hold '@'.
    let (addr, vdi, tag) = vdi_spec("sheepdog:sheep0/vol@daily%nqn.2026-06.io:a@b");
    assert_eq!(
        (addr, vdi, tag),
        ("sheep0:7000".into(), "vol".into(), Some("daily".into()))
    );
    assert_eq!(
        vdi_acl("sheepdog:sheep0/vol@daily%nqn.2026-06.io:a@b"),
        Some("nqn.2026-06.io:a@b".into())
    );
    // ACL scoping is orthogonal to `?nolock`.
    assert!(!locks("sheepdog:sheep0/vol%grp?nolock"));
    assert_eq!(
        vdi_acl("sheepdog:sheep0/vol%grp?nolock"),
        Some("grp".into())
    );
}

#[test]
fn sheepdog_cluster_specs_parse() {
    assert_eq!(cluster_spec("sheepdog:sheep0"), "sheep0:7000");
    assert_eq!(cluster_spec("sheepdog:sheep0/"), "sheep0:7000");
    assert_eq!(cluster_spec("sheepdog:10.0.0.1:7001"), "10.0.0.1:7001");
    assert_eq!(cluster_spec("sheepdog:[::1]:7000/"), "[::1]:7000");
}

#[test]
fn vdi_locking_is_on_unless_waived() {
    assert!(locks("sheepdog:sheep0/vol"));
    assert!(locks("sheepdog:sheep0"));
    assert!(!locks("sheepdog:sheep0/vol?nolock"));
    assert!(!locks("sheepdog:sheep0/vol@daily?nolock"));
    assert!(!locks("sheepdog:sheep0?nolock"));
    // `?nolock` is stripped before the address, not left in the host.
    assert_eq!(
        cluster_spec("sheepdog:10.0.0.1:7001?nolock"),
        "10.0.0.1:7001"
    );
    assert_eq!(vdi_spec("sheepdog:sheep0/vol?nolock").1, "vol");
}

#[test]
fn malformed_sheepdog_specs_rejected() {
    for spec in ["sheepdog:", "sheepdog:/vol", "sheepdog:/"] {
        assert!(parse_sheepdog(spec).is_err(), "{spec} should be rejected");
    }
    assert!(parse_sheepdog("sheepdog:::1:7000/vol")
        .unwrap_err()
        .contains("bracketed"));
    assert!(parse_sheepdog("sheepdog:sheep0/@daily")
        .unwrap_err()
        .contains("VDI name"));
    assert!(parse_sheepdog("sheepdog:sheep0/vol?lock=0")
        .unwrap_err()
        .contains("unknown sheepdog option"));
    assert!(parse_sheepdog("sheepdog:sheep0/vol%")
        .unwrap_err()
        .contains("ACL name"));
}

/// A single-VDI spec still builds exactly one subsystem, the flag-named one,
/// and never touches the cluster.
#[test]
fn vdi_spec_keeps_the_flag_nqn() {
    let built = built("sheepdog:sheep0/vol%grp", 64, "nqn.2026-06.io.ioutgt:x");
    assert_eq!(built.len(), 1);
    assert_eq!(built[0].nqn, "nqn.2026-06.io.ioutgt:x");
    match &built[0].namespaces[..] {
        [ns] => {
            assert_eq!(ns.nsid, 1);
            match &ns.backend {
                BackendConfig::Sheepdog { vdi, acl, .. } => {
                    assert_eq!(vdi, "vol");
                    assert_eq!(acl.as_deref(), Some("grp"));
                }
                other => panic!("expected a sheepdog backend, got {other:?}"),
            }
        }
        other => panic!("expected one namespace, got {other:?}"),
    }
}

#[test]
fn a_queues_interrupts_follow_its_thread_or_the_other_way_round() {
    let irqs = parse_interrupts("10: 0 eth9-rx-0\n11: 0 eth9-tx-0\n12: 0 eth9-rx-1\n", "eth9");
    let mut cpus = vec![Some(4), None];

    // Both IRQs take the thread's CPU.
    let (mut q, step) = QueueSync::start(&irqs, 0, &cpus);
    assert!(matches!(step, Step::Write { irq: 10, cpu: 4 }));
    assert!(matches!(q.wrote(None), Step::Write { irq: 11, cpu: 4 }));
    match q.wrote(None) {
        Step::Done(r) => {
            assert_eq!(r.managed, Some(false));
            assert_eq!(
                r.action,
                "nic-follows-iothread: irq(s) [10, 11] smp_affinity -> cpu 4"
            );
        }
        other => panic!("unexpected step {other:?}"),
    }

    // A refused write is a managed IRQ: the thread follows the NIC.
    let (mut q, _) = QueueSync::start(&irqs, 0, &cpus);
    assert!(matches!(
        q.wrote(Some("denied".to_string())),
        Step::Read { irq: 10 }
    ));
    let r = q.read(Some("7-8"), &mut cpus);
    assert_eq!(r.managed, Some(true));
    assert!(r.action.contains("io-thread 0 cpu 4 -> 7"), "{}", r.action);
    assert_eq!(cpus, vec![Some(7), None]);

    // An unpinned thread only ever follows.
    let (mut q, step) = QueueSync::start(&irqs, 1, &cpus);
    assert!(matches!(step, Step::Read { irq: 12 }));
    q.read(None, &mut cpus);
    assert_eq!(cpus[1], None);
    let (_, step) = QueueSync::start(&irqs, 2, &cpus);
    match step {
        Step::Done(r) => assert_eq!(r.action, "skipped: more NIC queues than io-threads"),
        other => panic!("unexpected step {other:?}"),
    }
    assert_eq!(effective(" 3-4\n"), "3-4");
}
