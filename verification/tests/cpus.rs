//! CPU sets, grouping, spreading and the topology they work on.

use ioutgt::cpuset::CpuSet;
use ioutgt::group::group_cpus_evenly;
use ioutgt::spread::spread_cpus;
use ioutgt::topology::{CpuTopology, SysfsTree};

#[test]
fn set_ops() {
    let mut a = CpuSet::new();
    assert!(a.is_empty());
    assert_eq!(a.first(), None);
    a.set(1);
    a.set(64);
    a.set(65);
    assert!(a.test(64) && !a.test(63));
    assert_eq!(a.weight(), 3);
    assert_eq!(a.first(), Some(1));
    assert_eq!(a.last(), Some(65));
    assert_eq!(a.iter(), vec![1, 64, 65]);

    a.clear(64);
    assert_eq!(a.weight(), 2);
    a.clear(1000); // out of range is a no-op
    let b: CpuSet = CpuSet::from_iter(&[0, 1, 65]);
    assert_eq!(a.and(&b).iter(), vec![1, 65]);
    assert_eq!(a.or(&b).iter(), vec![0, 1, 65]);
    assert_eq!(b.andnot(&a).iter(), vec![0]);
    assert!(a.intersects(&b));
    assert!(!CpuSet::new().intersects(&b));
}

#[test]
fn cpulist_round_trip() {
    for s in ["", "0", "0-3", "0-3,8,10-11", "1,3,5"] {
        let set = CpuSet::from_cpulist(s).unwrap();
        assert_eq!(set.to_string(), s, "round-trip of {s:?}");
    }
    assert_eq!(CpuSet::from_cpulist(" 0-2\n").unwrap().weight(), 3);
    assert!(CpuSet::from_cpulist("3-1").is_err());
    assert!(CpuSet::from_cpulist("x").is_err());
}

/// Synthetic topology: `nodes` is the per-node cpulist; present /
/// online default to all possible; sibling defaults to self-only;
/// no clusters.
fn topo(nodes: &[&str]) -> CpuTopology {
    let node_to_cpus: Vec<CpuSet> = nodes
        .iter()
        .map(|s| CpuSet::from_cpulist(s).unwrap())
        .collect();
    let possible = node_to_cpus.iter().fold(CpuSet::new(), |acc, n| acc.or(n));
    let nr_cpu_ids = possible.last().map_or(0, |c| c + 1);
    CpuTopology {
        nr_cpu_ids,
        present: possible.clone(),
        online: possible.clone(),
        possible,
        node_to_cpus,
        sibling: (0..nr_cpu_ids).map(|c| CpuSet::from_iter(&[c])).collect(),
        cluster: vec![CpuSet::new(); nr_cpu_ids],
    }
}

/// The documented invariant: groups are pairwise disjoint and
/// their union is exactly the possible mask.
fn check_disjoint_cover(topo: &CpuTopology, groups: &[CpuSet]) {
    let mut seen = CpuSet::new();
    for g in groups {
        assert!(!seen.intersects(g), "groups overlap: {groups:?}");
        seen = seen.or(g);
    }
    assert_eq!(
        seen, topo.possible,
        "groups do not cover possible: {groups:?}"
    );
}

#[test]
fn single_node_even_split() {
    let t = topo(&["0-7"]);
    let groups = group_cpus_evenly(4, &t);
    assert_eq!(groups.len(), 4);
    for g in &groups {
        assert_eq!(g.weight(), 2);
    }
    check_disjoint_cover(&t, &groups);
}

#[test]
fn single_node_with_remainder() {
    let t = topo(&["0-9"]);
    let groups = group_cpus_evenly(4, &t);
    let mut weights: Vec<usize> = groups.iter().map(CpuSet::weight).collect();
    weights.sort_unstable();
    assert_eq!(weights, vec![2, 2, 3, 3]);
    check_disjoint_cover(&t, &groups);
}

#[test]
fn two_nodes_node_pure_groups() {
    let t = topo(&["0-7", "8-15"]);
    let groups = group_cpus_evenly(4, &t);
    assert_eq!(groups.len(), 4);
    check_disjoint_cover(&t, &groups);
    let mut per_node = [0, 0];
    for g in &groups {
        assert_eq!(g.weight(), 4);
        let node = usize::from(g.first().unwrap() >= 8);
        assert!(
            g.andnot(&t.node_to_cpus[node]).is_empty(),
            "group {g:?} crosses nodes"
        );
        per_node[node] += 1;
    }
    assert_eq!(per_node, [2, 2]);
}

#[test]
fn unbalanced_nodes_get_at_least_one_group() {
    // node0 has 2 CPUs, node1 has 14: with 4 groups node0 still
    // gets one group (smallest-node-first allocation).
    let t = topo(&["0-1", "2-15"]);
    let groups = group_cpus_evenly(4, &t);
    assert_eq!(groups.len(), 4);
    check_disjoint_cover(&t, &groups);
    assert!(groups.iter().any(|g| g == &t.node_to_cpus[0]));
}

#[test]
fn more_nodes_than_groups_wraps() {
    let t = topo(&["0-3", "4-7", "8-11"]);
    let groups = group_cpus_evenly(2, &t);
    assert_eq!(groups.len(), 2);
    check_disjoint_cover(&t, &groups);
    // node0 and node2 share group 0 (wrap), node1 gets group 1
    assert_eq!(groups[0].to_string(), "0-3,8-11");
    assert_eq!(groups[1].to_string(), "4-7");
}

#[test]
fn more_groups_than_cpus_truncates() {
    let t = topo(&["0-2"]);
    let groups = group_cpus_evenly(8, &t);
    assert_eq!(groups.len(), 3);
    for g in &groups {
        assert_eq!(g.weight(), 1);
    }
    check_disjoint_cover(&t, &groups);
}

#[test]
fn group_smt_siblings_stay_together() {
    // 8 CPUs, siblings (0,4) (1,5) (2,6) (3,7) — like x86 SMT.
    let mut t = topo(&["0-7"]);
    for c in 0..8 {
        t.sibling[c] = CpuSet::from_iter(&[c % 4, c % 4 + 4]);
    }
    let groups = group_cpus_evenly(4, &t);
    check_disjoint_cover(&t, &groups);
    for g in &groups {
        let lo = g.first().unwrap();
        assert_eq!(g.iter(), vec![lo, lo + 4], "group {g:?}");
    }
}

#[test]
fn cluster_pure_groups() {
    // one node, 4 clusters of 4 CPUs, 4 groups: each group must be
    // exactly one cluster.
    let mut t = topo(&["0-15"]);
    for c in 0..16 {
        t.cluster[c] =
            CpuSet::from_cpulist(&format!("{}-{}", c / 4 * 4, c / 4 * 4 + 3)).unwrap();
    }
    let groups = group_cpus_evenly(4, &t);
    check_disjoint_cover(&t, &groups);
    for g in &groups {
        assert_eq!(g.weight(), 4);
        assert_eq!(g.first().unwrap() % 4, 0, "group {g:?} is not cluster-pure");
    }
}

#[test]
fn clusters_outnumbering_groups_fall_back() {
    // 4 clusters but only 2 groups: cluster pass must be skipped,
    // plain spread still covers everything evenly.
    let mut t = topo(&["0-15"]);
    for c in 0..16 {
        t.cluster[c] =
            CpuSet::from_cpulist(&format!("{}-{}", c / 4 * 4, c / 4 * 4 + 3)).unwrap();
    }
    let groups = group_cpus_evenly(2, &t);
    check_disjoint_cover(&t, &groups);
    assert!(groups.iter().all(|g| g.weight() == 8));
}

#[test]
fn two_stage_present_then_possible() {
    // 8 possible CPUs but only 0-3 present: present CPUs spread
    // over groups 0-3 first, non-present CPUs over the same groups
    // starting back at 0 (4 groups exhausted by stage 1).
    let mut t = topo(&["0-7"]);
    t.present = CpuSet::from_cpulist("0-3").unwrap();
    let groups = group_cpus_evenly(4, &t);
    assert_eq!(groups.len(), 4);
    check_disjoint_cover(&t, &groups);
    for g in &groups {
        assert_eq!(g.weight(), 2);
        assert!(g.intersects(&t.present), "group {g:?} has no present CPU");
    }
}

#[test]
fn invariant_matrix() {
    // Sweep group counts over assorted topologies; the
    // disjoint-and-complete invariant must always hold.
    let mut topos = vec![
        topo(&["0"]),
        topo(&["0-63"]),
        topo(&["0-7", "8-15", "16-23", "24-31"]),
        topo(&["0-1", "2-30", "31"]),
    ];
    let mut t = topo(&["0-11", "12-23"]);
    t.present = CpuSet::from_cpulist("0-2,12-17").unwrap();
    for c in 0..24 {
        t.cluster[c] =
            CpuSet::from_cpulist(&format!("{}-{}", c / 3 * 3, c / 3 * 3 + 2)).unwrap();
        t.sibling[c] = CpuSet::from_iter(&[c ^ 1]);
    }
    topos.push(t);
    for t in &topos {
        for numgrps in 1..=(t.possible.weight() + 2) {
            let groups = group_cpus_evenly(numgrps, t);
            assert_eq!(groups.len(), numgrps.min(t.possible.weight()));
            check_disjoint_cover(t, &groups);
        }
    }
}

#[test]
fn only_the_clusters_searched_for_must_be_apart() {
    // CPU 1 disagrees with CPU 0 on their cluster, and is not asked.
    let mut t = topo(&["0-3"]);
    for (cpu, list) in [(0, "0-1"), (1, "1-3"), (2, "2-3"), (3, "3")] {
        t.cluster[cpu] = CpuSet::from_cpulist(list).unwrap();
    }
    let groups = group_cpus_evenly(2, &t);
    assert_eq!(
        groups,
        vec![CpuSet::from_iter(&[0, 1]), CpuSet::from_iter(&[2, 3])]
    );
}

#[test]
fn every_group_holds_a_cpu() {
    let mut t = topo(&["0-2", "3-11", "12"]);
    t.present = CpuSet::from_cpulist("1,4-6").unwrap();
    for c in 3..12 {
        t.cluster[c] =
            CpuSet::from_cpulist(&format!("{}-{}", c / 3 * 3, c / 3 * 3 + 2)).unwrap();
    }
    for numgrps in 1..=15 {
        let groups = group_cpus_evenly(numgrps, &t);
        assert_eq!(groups.len(), numgrps.min(13));
        assert!(groups.iter().all(|g| !g.is_empty()), "{numgrps}: {groups:?}");
    }
}

/// Synthetic topology: all-present == online, no SMT/cluster data.
fn mk(possible: &str, present: &str, nodes: &[&str]) -> CpuTopology {
    let possible = CpuSet::from_cpulist(possible).unwrap();
    let present = CpuSet::from_cpulist(present).unwrap();
    let nr_cpu_ids = possible.last().map_or(0, |c| c + 1);
    CpuTopology {
        nr_cpu_ids,
        online: present.clone(),
        present,
        node_to_cpus: nodes
            .iter()
            .map(|s| CpuSet::from_cpulist(s).unwrap())
            .collect(),
        sibling: vec![CpuSet::new(); nr_cpu_ids],
        cluster: vec![CpuSet::new(); nr_cpu_ids],
        possible,
    }
}

/// Install `lists` as the per-CPU masks of every listed member.
fn set_masks(masks: &mut [CpuSet], lists: &[&str]) {
    for list in lists {
        let set = CpuSet::from_cpulist(list).unwrap();
        for cpu in set.iter() {
            masks[cpu] = set.clone();
        }
    }
}

fn same(a: &CpuSet, b: &CpuSet) -> bool {
    a.andnot(b).is_empty() && b.andnot(a).is_empty()
}

/// The unconditional contract: exact length, disjoint, covering.
fn check(groups: &[CpuSet], topo: &CpuTopology, ngroups: usize) {
    assert_eq!(groups.len(), ngroups);
    let mut seen = CpuSet::new();
    for g in groups {
        assert!(!seen.intersects(g), "groups overlap: {groups:?}");
        seen = seen.or(g);
    }
    assert!(
        same(&seen, &topo.possible),
        "groups {groups:?} do not cover possible {:?}",
        topo.possible
    );
}

#[test]
fn single_node_even() {
    let t = mk("0-7", "0-7", &["0-7"]);
    let groups = spread_cpus(4, &t);
    check(&groups, &t, 4);
    assert!(groups.iter().all(|g| g.weight() == 2), "{groups:?}");
}

#[test]
fn uneven_remainder() {
    let t = mk("0-9", "0-9", &["0-9"]);
    let groups = spread_cpus(4, &t);
    check(&groups, &t, 4);
    let mut weights: Vec<usize> = groups.iter().map(CpuSet::weight).collect();
    weights.sort_unstable();
    assert_eq!(weights, vec![2, 2, 3, 3]);
}

#[test]
fn two_nodes_node_pure() {
    let t = mk("0-15", "0-15", &["0-7", "8-15"]);
    let groups = spread_cpus(4, &t);
    check(&groups, &t, 4);
    let mut per_node = [0usize; 2];
    for g in &groups {
        assert_eq!(g.weight(), 4);
        let homes: Vec<usize> = (0..2)
            .filter(|&n| g.intersects(&t.node_to_cpus[n]))
            .collect();
        assert_eq!(homes.len(), 1, "group {g:?} spans nodes");
        per_node[homes[0]] += 1;
    }
    assert_eq!(per_node, [2, 2]);
}

#[test]
fn groups_match_nodes_exactly() {
    let nodes = ["0-3", "4-7", "8-11", "12-15"];
    let t = mk("0-15", "0-15", &nodes);
    let groups = spread_cpus(4, &t);
    check(&groups, &t, 4);
    for node in &t.node_to_cpus {
        assert!(
            groups.iter().any(|g| same(g, node)),
            "no group equals node {node:?}"
        );
    }
}

#[test]
fn fewer_groups_keep_nodes_whole() {
    let t = mk("0-11", "0-11", &["0-3", "4-7", "8-11"]);
    let groups = spread_cpus(2, &t);
    check(&groups, &t, 2);
    // Every node lands whole inside exactly one group.
    for node in &t.node_to_cpus {
        let holders: Vec<&CpuSet> = groups.iter().filter(|g| g.intersects(node)).collect();
        assert_eq!(holders.len(), 1, "node {node:?} split across groups");
        assert!(node.andnot(holders[0]).is_empty());
    }
}

#[test]
fn more_groups_than_cpus() {
    let t = mk("0-2", "0-2", &["0-2"]);
    let groups = spread_cpus(5, &t);
    check(&groups, &t, 5);
    let mut weights: Vec<usize> = groups.iter().map(CpuSet::weight).collect();
    weights.sort_unstable();
    assert_eq!(weights, vec![0, 0, 1, 1, 1]);
}

#[test]
fn spread_smt_siblings_stay_together() {
    let mut t = mk("0-7", "0-7", &["0-7"]);
    set_masks(&mut t.sibling, &["0,4", "1,5", "2,6", "3,7"]);
    let groups = spread_cpus(4, &t);
    check(&groups, &t, 4);
    for g in &groups {
        let first = g.first().unwrap();
        assert!(same(g, &t.sibling[first]), "group {g:?} splits an SMT pair");
    }
}

#[test]
fn only_a_group_boundary_parts_siblings() {
    let mut t = mk("0-7", "0-7", &["0-7"]);
    set_masks(&mut t.sibling, &["0,4", "1,5", "2,6", "3,7"]);
    let groups = spread_cpus(3, &t);
    check(&groups, &t, 3);
    // Dealt out as 0 4 1 5 2 6 3 7: the first boundary falls between 1 and 5.
    let want = ["0,1,4", "2,5,6", "3,7"];
    for (g, w) in groups.iter().zip(want) {
        assert!(same(g, &CpuSet::from_cpulist(w).unwrap()), "{groups:?}");
    }
}

#[test]
fn clusters_stay_together() {
    let mut t = mk("0-15", "0-15", &["0-15"]);
    set_masks(&mut t.cluster, &["0-3", "4-7", "8-11", "12-15"]);
    let groups = spread_cpus(4, &t);
    check(&groups, &t, 4);
    for g in &groups {
        let first = g.first().unwrap();
        assert!(same(g, &t.cluster[first]), "group {g:?} splits a cluster");
    }
}

#[test]
fn present_spread_evenly() {
    // Half the possible CPUs are present: each group must get an
    // equal share of the present ones, not just of the total.
    let t = mk("0-7", "0-3", &["0-7"]);
    let groups = spread_cpus(2, &t);
    check(&groups, &t, 2);
    for g in &groups {
        assert_eq!(g.weight(), 4);
        assert_eq!(g.and(&t.present).weight(), 2, "present skewed: {g:?}");
    }
}

#[test]
fn seats_follow_present_weight() {
    // node0: 4 present of 4; node1: 2 present of 8. Present
    // weighting gives the third group to node0; possible weighting
    // would hand it to node1.
    let t = mk("0-11", "0-5", &["0-3", "4-11"]);
    let groups = spread_cpus(3, &t);
    check(&groups, &t, 3);
    let in_node0 = groups
        .iter()
        .filter(|g| !g.is_empty() && g.andnot(&t.node_to_cpus[0]).is_empty())
        .count();
    let in_node1 = groups
        .iter()
        .filter(|g| !g.is_empty() && g.andnot(&t.node_to_cpus[1]).is_empty())
        .count();
    assert_eq!((in_node0, in_node1), (2, 1), "{groups:?}");
}

#[test]
fn zero_groups() {
    let t = mk("0-3", "0-3", &["0-3"]);
    assert!(spread_cpus(0, &t).is_empty());
}

#[test]
fn empty_topology() {
    let t = CpuTopology {
        nr_cpu_ids: 0,
        possible: CpuSet::new(),
        present: CpuSet::new(),
        online: CpuSet::new(),
        node_to_cpus: vec![CpuSet::new()],
        sibling: Vec::new(),
        cluster: Vec::new(),
    };
    let groups = spread_cpus(3, &t);
    assert_eq!(groups.len(), 3);
    assert!(groups.iter().all(CpuSet::is_empty));
}

#[test]
fn invariants_hold_across_group_counts() {
    let mut t = mk("0-15", "0-15", &["0-7", "8-15"]);
    set_masks(
        &mut t.sibling,
        &["0-1", "2-3", "4-5", "6-7", "8-9", "10-11", "12-13", "14-15"],
    );
    set_masks(&mut t.cluster, &["0-3", "4-7", "8-11", "12-15"]);
    for n in 1..=10 {
        let groups = spread_cpus(n, &t);
        check(&groups, &t, n);
        if n >= 2 {
            // At least as many groups as nodes: node purity.
            for g in groups.iter().filter(|g| !g.is_empty()) {
                assert!(
                    t.node_to_cpus.iter().any(|nd| g.andnot(nd).is_empty()),
                    "group {g:?} spans nodes at n={n}"
                );
            }
        }
    }
}

#[test]
fn fixture_tree() {
    let mut siblings = Vec::new();
    let mut clusters = Vec::new();
    for cpu in 0..8usize {
        if cpu >= 6 {
            // no cpu6 or cpu7 directory
            siblings.push((cpu, None));
            clusters.push((cpu, None));
            continue;
        }
        let sib = if cpu % 2 == 0 { cpu } else { cpu - 1 };
        siblings.push((cpu, Some(format!("{}-{}\n", sib, sib + 1))));
        // no cluster_cpus_list for cpu5: must read as empty
        clusters.push((
            cpu,
            if cpu != 5 {
                Some("0-5\n".to_string())
            } else {
                None
            },
        ));
    }
    let tree = SysfsTree {
        possible: "0-7\n".to_string(),
        present: "0-5\n".to_string(),
        online: "0-4\n".to_string(),
        nodes: vec![
            ("node0".to_string(), Some("0-2\n".to_string())),
            ("node2".to_string(), Some("3-5\n".to_string())),
        ],
        siblings,
        clusters,
    };

    let topo = CpuTopology::from_sysfs(&tree).unwrap();
    assert_eq!(topo.nr_cpu_ids, 8);
    assert_eq!(topo.possible.to_string(), "0-7");
    assert_eq!(topo.present.to_string(), "0-5");
    assert_eq!(topo.online.to_string(), "0-4");
    // sparse node ids: node1 exists but is empty
    assert_eq!(topo.node_to_cpus.len(), 3);
    assert!(topo.node_to_cpus[1].is_empty());
    assert_eq!(topo.node_to_cpus[2].to_string(), "3-5");
    // CPUs 6-7 are possible but in no node: folded into node 0
    assert_eq!(topo.node_to_cpus[0].to_string(), "0-2,6-7");
    assert_eq!(topo.sibling[4].to_string(), "4-5");
    assert!(topo.cluster[5].is_empty());
    assert!(topo.sibling[6].is_empty()); // no cpu6 directory
}

#[test]
fn live_sysfs_smoke() {
    // What a small machine's sysfs says, other entries of the directories
    // included.
    let tree = SysfsTree {
        possible: "0-3\n".to_string(),
        present: "0-3\n".to_string(),
        online: "0-3\n".to_string(),
        nodes: vec![
            ("has_cpu".to_string(), Some("0\n".to_string())),
            ("node0".to_string(), Some("0-3\n".to_string())),
            ("online".to_string(), Some("0\n".to_string())),
            ("power".to_string(), None),
        ],
        siblings: (0..4).map(|c| (c, Some(format!("{c}\n")))).collect(),
        clusters: (0..4).map(|c| (c, Some(format!("{c}\n")))).collect(),
    };
    let topo = CpuTopology::from_sysfs(&tree).unwrap();
    assert!(!topo.possible.is_empty());
    assert!(topo.nr_cpu_ids > 0);
    // every present CPU must be claimed by some node
    let claimed = topo
        .node_to_cpus
        .iter()
        .fold(CpuSet::new(), |acc, n| acc.or(n));
    assert!(topo.present.andnot(&claimed).is_empty());
}

#[test]
fn a_malformed_sysfs_list_names_its_part() {
    let tree = SysfsTree {
        possible: "0-1\n".to_string(),
        present: "0,x\n".to_string(),
        online: "0\n".to_string(),
        nodes: Vec::new(),
        siblings: vec![(0, None), (1, None)],
        clusters: vec![(0, None), (1, None)],
    };
    assert_eq!(CpuTopology::from_sysfs(&tree).unwrap_err().part, "x");
}

#[test]
fn node_directories_are_told_by_name() {
    assert_eq!(CpuTopology::node_id("node0"), Some(0));
    assert_eq!(CpuTopology::node_id("node17"), Some(17));
    assert_eq!(CpuTopology::node_id("node"), None);
    assert_eq!(CpuTopology::node_id("nodes"), None);
    assert_eq!(CpuTopology::node_id("possible"), None);
}

#[test]
fn cpulists_of_the_same_set_read_alike() {
    let a = CpuSet::from_cpulist("0,1,2,3").unwrap();
    let b = CpuSet::from_cpulist("0-1,2-3").unwrap();
    assert_eq!(a.to_string(), "0-3");
    assert_eq!(b.to_string(), "0-3");
    assert_eq!(CpuSet::from_cpulist("1,,2").unwrap().to_string(), "1-2");
    assert_eq!(CpuSet::from_cpulist("2-").unwrap_err().part, "2-");
}
