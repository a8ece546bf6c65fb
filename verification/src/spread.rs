//! NUMA/cluster/SMT-aware even partition of CPUs into pinning groups.
//!
//! What [`spread_cpus`] promises (`n` = requested group count):
//! - exactly `n` groups come back, pairwise disjoint, and their union is every
//!   possible CPU (trailing groups may be empty when `n` exceeds the CPU
//!   count);
//! - each group stays inside one NUMA node whenever `n >=` the number of
//!   non-empty nodes, and every such node gets at least one group; with fewer
//!   groups than nodes, groups are unions of whole nodes;
//! - present CPUs are spread as evenly as the node quotas allow, so
//!   never-onlined possible CPUs do not skew the pinnable load;
//! - cluster and SMT siblings land in the same group whenever the group sizes
//!   allow.
//!
//! Shape of the algorithm: group *seats* are apportioned to nodes by largest
//! remainder on present-CPU weight, with a floor of one seat per non-empty
//! node; each node is then packed sequentially in cluster-major, SMT-atom
//! order — present CPUs first against per-group present quotas, then the
//! remaining possible CPUs, each preferring a group that already holds one of
//! its SMT siblings. With fewer groups than nodes, whole nodes are instead
//! placed heaviest-first into the currently lightest group.

use vstd::prelude::*;
use vstd::set_lib::*;

use crate::cpuset;
use crate::cpuset::CpuSet;
use crate::group;
use crate::order;
use crate::sets;
use crate::topology;
use crate::topology::CpuTopology;

verus! {

// ---------------------------------------------------------------------------
// Locality order
// ---------------------------------------------------------------------------

/// The members of `s` in ascending order.
pub open spec fn ascending(s: Set<int>) -> Seq<int>
    decreases s.len(),
    via ascending_decreases
{
    if s == Set::<int>::empty() || !s.finite() {
        seq![]
    } else {
        seq![sets::least(s)] + ascending(s.remove(sets::least(s)))
    }
}

#[via_fn]
proof fn ascending_decreases(s: Set<int>) {
    if s.finite() && s != Set::<int>::empty() {
        sets::lemma_least(s);
    }
}

/// A listing as integers.
pub open spec fn ints(v: Seq<usize>) -> Seq<int> {
    v.map_values(|c: usize| c as int)
}

/// A listing of a set is its members in ascending order.
proof fn lemma_ascending(v: Seq<usize>, s: Set<int>)
    requires
        cpuset::lists(v, s),
    ensures
        ints(v) == ascending(s),
    decreases v.len(),
{
    cpuset::lemma_lists_len(v, s);
    if v.len() == 0 {
        assert(s =~= Set::empty());
        assert(ints(v) =~= ascending(s));
    } else {
        let c = v[0] as int;
        assert(s.contains(v[0] as int));
        sets::lemma_least(s);
        assert(sets::is_least(s, c)) by {
            assert forall|x: int| #[trigger] s.contains(x) implies c <= x by {
                let i = choose|i: int| 0 <= i < v.len() && v[i] == x as usize;
                if i > 0 {
                    assert(v[0] < v[i]);
                }
            }
        }
        let w = v.drop_first();
        let t = s.remove(c);
        assert forall|x: int| #[trigger] t.contains(x) implies 0 <= x <= usize::MAX && w.contains(
            x as usize,
        ) by {
            assert(s.contains(x));
            let i = choose|i: int| 0 <= i < v.len() && v[i] == x as usize;
            assert(w[i - 1] == x as usize);
        }
        assert forall|i: int| 0 <= i < w.len() implies t.contains(#[trigger] w[i] as int) by {
            assert(w[i] == v[i + 1]);
            assert(v[0] < v[i + 1]);
        }
        lemma_ascending(w, t);
        assert(ints(v) =~= seq![c] + ints(w));
    }
}

/// The ascending members are the members, each once.
pub proof fn lemma_ascending_of(s: Set<int>)
    requires
        s.finite(),
    ensures
        ascending(s).to_set() == s,
        ascending(s).no_duplicates(),
        ascending(s).len() == s.len(),
    decreases s.len(),
{
    if s == Set::<int>::empty() {
        assert(ascending(s).to_set() =~= s);
    } else {
        sets::lemma_least(s);
        let c = sets::least(s);
        let rest = ascending(s.remove(c));
        lemma_ascending_of(s.remove(c));
        let a = ascending(s);
        assert(a =~= seq![c] + rest);
        assert(!rest.contains(c)) by {
            if rest.contains(c) {
                assert(rest.to_set().contains(c));
            }
        }
        assert forall|x: int| a.to_set().contains(x) == s.contains(x) by {
            if x != c && s.contains(x) {
                assert(rest.to_set().contains(x));
                let i = choose|i: int| 0 <= i < rest.len() && rest[i] == x;
                assert(a[i + 1] == x);
            }
            if x == c {
                assert(a[0] == c);
            }
            if a.contains(x) && x != c {
                let i = choose|i: int| 0 <= i < a.len() && a[i] == x;
                assert(rest[i - 1] == x);
                assert(rest.to_set().contains(x));
            }
        }
        assert(a.to_set() =~= s);
        assert forall|i: int, j: int| 0 <= i < a.len() && 0 <= j < a.len() && i != j implies a[i]
            != a[j] by {
            if i == 0 {
                assert(rest.contains(rest[j - 1]));
            } else if j == 0 {
                assert(rest.contains(rest[i - 1]));
            } else {
                assert(rest[i - 1] != rest[j - 1]);
            }
        }
    }
}

/// What CPU `c` pulls in: its cluster on the node, else its siblings there,
/// else itself, without what was visited.
pub open spec fn area_of(
    c: int,
    node: Set<int>,
    visited: Set<int>,
    sib: Seq<Set<int>>,
    cluster: Seq<Set<int>>,
) -> Set<int> {
    let mask = if topology::mask_of(cluster, c) == Set::<int>::empty() {
        topology::mask_of(sib, c)
    } else {
        topology::mask_of(cluster, c)
    };
    let a = mask.intersect(node).difference(visited);
    if a == Set::<int>::empty() {
        a.insert(c)
    } else {
        a
    }
}

/// The SMT siblings of `c` in `area` that were not visited, or `c` alone.
pub open spec fn atom_of(c: int, area: Set<int>, visited: Set<int>, sib: Seq<Set<int>>) -> Set<
    int,
> {
    let a = topology::mask_of(sib, c).intersect(area).difference(visited);
    if a == Set::<int>::empty() {
        a.insert(c)
    } else {
        a
    }
}

/// The CPUs `cs` of an area with sibling sets kept together.
pub open spec fn atoms(cs: Seq<int>, area: Set<int>, visited: Set<int>, sib: Seq<Set<int>>) -> Seq<
    int,
>
    decreases cs.len(),
{
    if cs.len() == 0 {
        seq![]
    } else if visited.contains(cs[0]) {
        atoms(cs.drop_first(), area, visited, sib)
    } else {
        let atom = atom_of(cs[0], area, visited, sib);
        ascending(atom) + atoms(cs.drop_first(), area, visited.union(atom), sib)
    }
}

/// The CPUs `cs` of a node with clusters, and siblings inside them, kept
/// together.
pub open spec fn locality(
    cs: Seq<int>,
    node: Set<int>,
    visited: Set<int>,
    sib: Seq<Set<int>>,
    cluster: Seq<Set<int>>,
) -> Seq<int>
    decreases cs.len(),
{
    if cs.len() == 0 {
        seq![]
    } else if visited.contains(cs[0]) {
        locality(cs.drop_first(), node, visited, sib, cluster)
    } else {
        let area = area_of(cs[0], node, visited, sib, cluster);
        let run = atoms(ascending(area), area, visited, sib);
        run + locality(cs.drop_first(), node, visited.union(run.to_set()), sib, cluster)
    }
}

/// Every CPU of `node` in locality order: clusters by their lowest CPU id,
/// whole SMT sibling sets contiguous inside their cluster, ascending ids
/// inside a sibling set.
pub open spec fn node_order(node: Set<int>, sib: Seq<Set<int>>, cluster: Seq<Set<int>>) -> Seq<
    int,
> {
    locality(ascending(node), node, Set::empty(), sib, cluster)
}

/// Atoms repeat nothing, visit nothing twice and stay inside the area.
proof fn lemma_atoms(cs: Seq<int>, area: Set<int>, visited: Set<int>, sib: Seq<Set<int>>)
    requires
        area.finite(),
        forall|i: int| 0 <= i < cs.len() ==> area.contains(#[trigger] cs[i]),
    ensures
        atoms(cs, area, visited, sib).no_duplicates(),
        forall|x: int| #[trigger]
            atoms(cs, area, visited, sib).contains(x) ==> area.contains(x) && !visited.contains(x),
    decreases cs.len(),
{
    if cs.len() > 0 {
        let rest = cs.drop_first();
        assert forall|i: int| 0 <= i < rest.len() implies area.contains(#[trigger] rest[i]) by {
            assert(rest[i] == cs[i + 1]);
        }
        if visited.contains(cs[0]) {
            lemma_atoms(rest, area, visited, sib);
        } else {
            let atom = atom_of(cs[0], area, visited, sib);
            assert(area.contains(cs[0]));
            assert(topology::mask_of(sib, cs[0]).intersect(area).finite()) by {
                lemma_set_subset_finite(area, topology::mask_of(sib, cs[0]).intersect(area));
            }
            assert(atom.finite());
            lemma_ascending_of(atom);
            lemma_atoms(rest, area, visited.union(atom), sib);
            let a = ascending(atom);
            let b = atoms(rest, area, visited.union(atom), sib);
            assert forall|x: int| a.contains(x) implies atom.contains(x) by {
                assert(a.to_set().contains(x));
            }
            lemma_concat_distinct(a, b);
        }
    }
}

proof fn lemma_concat_distinct(a: Seq<int>, b: Seq<int>)
    requires
        a.no_duplicates(),
        b.no_duplicates(),
        forall|x: int| #[trigger] a.contains(x) ==> !b.contains(x),
    ensures
        (a + b).no_duplicates(),
        forall|x: int| #[trigger] (a + b).contains(x) <==> a.contains(x) || b.contains(x),
{
    let c = a + b;
    assert forall|i: int, j: int| 0 <= i < c.len() && 0 <= j < c.len() && i != j implies c[i]
        != c[j] by {
        if i < a.len() && j < a.len() {
        } else if i >= a.len() && j >= a.len() {
            assert(c[i] == b[i - a.len()] && c[j] == b[j - a.len()]);
        } else if i < a.len() {
            assert(a.contains(a[i]));
            assert(b.contains(b[j - a.len()]));
        } else {
            assert(a.contains(a[j]));
            assert(b.contains(b[i - a.len()]));
        }
    }
    assert forall|x: int| #[trigger] c.contains(x) <==> a.contains(x) || b.contains(x) by {
        if c.contains(x) {
            let i = choose|i: int| 0 <= i < c.len() && c[i] == x;
            if i < a.len() {
                assert(a[i] == x);
            } else {
                assert(b[i - a.len()] == x);
            }
        }
        if a.contains(x) {
            let i = choose|i: int| 0 <= i < a.len() && a[i] == x;
            assert(c[i] == x);
        }
        if b.contains(x) {
            let i = choose|i: int| 0 <= i < b.len() && b[i] == x;
            assert(c[i + a.len()] == x);
        }
    }
}

/// Locality order repeats nothing and stays inside the node.
proof fn lemma_locality(
    cs: Seq<int>,
    node: Set<int>,
    visited: Set<int>,
    sib: Seq<Set<int>>,
    cluster: Seq<Set<int>>,
)
    requires
        node.finite(),
        forall|i: int| 0 <= i < cs.len() ==> node.contains(#[trigger] cs[i]),
    ensures
        locality(cs, node, visited, sib, cluster).no_duplicates(),
        forall|x: int| #[trigger]
            locality(cs, node, visited, sib, cluster).contains(x) ==> node.contains(x)
                && !visited.contains(x),
    decreases cs.len(),
{
    if cs.len() > 0 {
        let rest = cs.drop_first();
        assert forall|i: int| 0 <= i < rest.len() implies node.contains(#[trigger] rest[i]) by {
            assert(rest[i] == cs[i + 1]);
        }
        if visited.contains(cs[0]) {
            lemma_locality(rest, node, visited, sib, cluster);
        } else {
            assert(node.contains(cs[0]));
            let area = area_of(cs[0], node, visited, sib, cluster);
            assert(area.subset_of(node));
            lemma_set_subset_finite(node, area);
            lemma_ascending_of(area);
            let run = atoms(ascending(area), area, visited, sib);
            assert forall|i: int| 0 <= i < ascending(area).len() implies area.contains(
                #[trigger] ascending(area)[i],
            ) by {
                assert(ascending(area).to_set().contains(ascending(area)[i]));
            }
            lemma_atoms(ascending(area), area, visited, sib);
            let seen = visited.union(run.to_set());
            lemma_locality(rest, node, seen, sib, cluster);
            let tail = locality(rest, node, seen, sib, cluster);
            assert forall|x: int| #[trigger] run.contains(x) implies !tail.contains(x) by {
                assert(run.to_set().contains(x));
            }
            lemma_concat_distinct(run, tail);
        }
    }
}

/// Whether every CPU that has a mask is in its own mask.
pub open spec fn masks_hold_self(m: Seq<Set<int>>) -> bool {
    forall|c: int|
        0 <= c < m.len() && (#[trigger] m[c]) != Set::<int>::empty() ==> m[c].contains(c)
}

/// With masks that hold their own CPU, an area's order leaves none out.
proof fn lemma_atoms_all(
    cs: Seq<int>,
    area: Set<int>,
    visited: Set<int>,
    sib: Seq<Set<int>>,
    x: int,
)
    requires
        area.finite(),
        masks_hold_self(sib),
        forall|i: int| 0 <= i < cs.len() ==> area.contains(#[trigger] cs[i]),
        cs.contains(x),
        !visited.contains(x),
    ensures
        atoms(cs, area, visited, sib).contains(x),
    decreases cs.len(),
{
    let rest = cs.drop_first();
    assert forall|i: int| 0 <= i < rest.len() implies area.contains(#[trigger] rest[i]) by {
        assert(rest[i] == cs[i + 1]);
    }
    let k = choose|k: int| 0 <= k < cs.len() && cs[k] == x;
    if k > 0 {
        assert(rest[k - 1] == x);
    }
    if visited.contains(cs[0]) {
        lemma_atoms_all(rest, area, visited, sib, x);
    } else {
        let c = cs[0];
        let atom = atom_of(c, area, visited, sib);
        let a = ascending(atom);
        let b = atoms(rest, area, visited.union(atom), sib);
        lemma_set_subset_finite(area, topology::mask_of(sib, c).intersect(area));
        assert(area.contains(c));
        lemma_ascending_of(atom);
        if atom.contains(x) {
            assert(a.to_set().contains(x));
            let i = choose|i: int| 0 <= i < a.len() && a[i] == x;
            assert((a + b)[i] == x);
        } else {
            if x == c {
                // A mask that is not empty on the area holds its own CPU.
                assert(atom.contains(c)) by {
                    let m = topology::mask_of(sib, c);
                    let z = m.intersect(area).difference(visited);
                    if z != Set::<int>::empty() {
                        let y = sets::lemma_some_member(z);
                        assert(m.contains(y));
                        assert(m != Set::<int>::empty());
                        assert(m.contains(c));
                    }
                }
            }
            lemma_atoms_all(rest, area, visited.union(atom), sib, x);
            let i = choose|i: int| 0 <= i < b.len() && b[i] == x;
            assert((a + b)[i + a.len()] == x);
        }
    }
}

proof fn lemma_locality_all(
    cs: Seq<int>,
    node: Set<int>,
    visited: Set<int>,
    sib: Seq<Set<int>>,
    cluster: Seq<Set<int>>,
    x: int,
)
    requires
        node.finite(),
        masks_hold_self(sib),
        masks_hold_self(cluster),
        forall|i: int| 0 <= i < cs.len() ==> node.contains(#[trigger] cs[i]),
        cs.contains(x),
        !visited.contains(x),
    ensures
        locality(cs, node, visited, sib, cluster).contains(x),
    decreases cs.len(),
{
    let rest = cs.drop_first();
    assert forall|i: int| 0 <= i < rest.len() implies node.contains(#[trigger] rest[i]) by {
        assert(rest[i] == cs[i + 1]);
    }
    let k = choose|k: int| 0 <= k < cs.len() && cs[k] == x;
    if k > 0 {
        assert(rest[k - 1] == x);
    }
    if visited.contains(cs[0]) {
        lemma_locality_all(rest, node, visited, sib, cluster, x);
    } else {
        let c = cs[0];
        assert(node.contains(c));
        let area = area_of(c, node, visited, sib, cluster);
        assert(area.subset_of(node));
        lemma_set_subset_finite(node, area);
        lemma_ascending_of(area);
        let run = atoms(ascending(area), area, visited, sib);
        let tail = locality(rest, node, visited.union(run.to_set()), sib, cluster);
        assert forall|i: int| 0 <= i < ascending(area).len() implies area.contains(
            #[trigger] ascending(area)[i],
        ) by {
            assert(ascending(area).to_set().contains(ascending(area)[i]));
        }
        if x == c {
            assert(area.contains(c)) by {
                let m = if topology::mask_of(cluster, c) == Set::<int>::empty() {
                    topology::mask_of(sib, c)
                } else {
                    topology::mask_of(cluster, c)
                };
                let z = m.intersect(node).difference(visited);
                if z != Set::<int>::empty() {
                    let y = sets::lemma_some_member(z);
                    assert(m.contains(y));
                    assert(m != Set::<int>::empty());
                    assert(m.contains(c));
                }
            }
            assert(ascending(area).to_set().contains(c));
            lemma_atoms_all(ascending(area), area, visited, sib, c);
        }
        if run.contains(x) {
            let i = choose|i: int| 0 <= i < run.len() && run[i] == x;
            assert((run + tail)[i] == x);
        } else {
            assert(!run.to_set().contains(x));
            lemma_locality_all(
                rest,
                node,
                visited.union(run.to_set()),
                sib,
                cluster,
                x,
            );
            let i = choose|i: int| 0 <= i < tail.len() && tail[i] == x;
            assert((run + tail)[i + run.len()] == x);
        }
    }
}

/// Locality order repeats no CPU, and where every mask holds its own CPU it
/// lists every CPU of the node.
pub proof fn lemma_node_order(node: Set<int>, sib: Seq<Set<int>>, cluster: Seq<Set<int>>)
    requires
        node.finite(),
    ensures
        node_order(node, sib, cluster).no_duplicates(),
        forall|x: int| #[trigger]
            node_order(node, sib, cluster).contains(x) ==> node.contains(x),
        masks_hold_self(sib) && masks_hold_self(cluster) ==> node_order(
            node,
            sib,
            cluster,
        ).to_set() == node,
{
    let cs = ascending(node);
    let o = node_order(node, sib, cluster);
    lemma_ascending_of(node);
    assert forall|i: int| 0 <= i < cs.len() implies node.contains(#[trigger] cs[i]) by {
        assert(cs.to_set().contains(cs[i]));
    }
    lemma_locality(cs, node, Set::empty(), sib, cluster);
    if masks_hold_self(sib) && masks_hold_self(cluster) {
        assert forall|x: int| node.contains(x) implies o.to_set().contains(x) by {
            assert(cs.to_set().contains(x));
            lemma_locality_all(cs, node, Set::empty(), sib, cluster, x);
        }
        assert forall|x: int| o.to_set().contains(x) implies node.contains(x) by {
            assert(o.contains(x));
        }
        assert(o.to_set() =~= node);
    }
}

/// The mask of `cpu`, empty where the list does not reach it.
fn mask_for(m: &Vec<CpuSet>, cpu: usize) -> (r: CpuSet)
    ensures
        r@ == topology::mask_of(topology::masks(m@), cpu as int),
{
    if cpu < m.len() {
        m[cpu].clone()
    } else {
        CpuSet::new()
    }
}

/// Every CPU of `node` in locality order (see [`node_order`]).
fn fill_order(node: &CpuSet, topo: &CpuTopology) -> (r: Vec<usize>)
    ensures
        ints(r@) == node_order(
            node@,
            topology::masks(topo.sibling@),
            topology::masks(topo.cluster@),
        ),
{
    let ghost sib = topology::masks(topo.sibling@);
    let ghost cluster = topology::masks(topo.cluster@);
    let mut order: Vec<usize> = Vec::new();
    let mut visited = CpuSet::new();
    let cpus = node.iter();
    let n: usize = cpus.len();
    let ghost cs = ints(cpus@);
    let ghost want = node_order(node@, sib, cluster);
    proof {
        node.lemma_members();
        lemma_ascending(cpus@, node@);
        assert(cs.skip(0) =~= cs);
        assert(ints(order@) + want =~= want);
    }
    for i in 0..n
        invariant
            n == cpus@.len(),
            cs == ints(cpus@),
            sib == topology::masks(topo.sibling@),
            cluster == topology::masks(topo.cluster@),
            want == ints(order@) + locality(cs.skip(i as int), node@, visited@, sib, cluster),
    {
        let cpu: usize = cpus[i];
        proof {
            assert(cs.skip(i as int)[0] == cpu);
            assert(cs.skip(i as int).drop_first() =~= cs.skip(i as int + 1));
        }
        if !visited.test(cpu) {
            let mut mask = mask_for(&topo.cluster, cpu);
            if mask.is_empty() {
                mask = mask_for(&topo.sibling, cpu);
            }
            let mut area = mask.and(node).andnot(&visited);
            if area.is_empty() {
                area.set(cpu);
            }
            let ghost seen = visited@;
            assert(area@ == area_of(cpu as int, node@, seen, sib, cluster));
            let members = area.iter();
            let m: usize = members.len();
            let ghost ms = ints(members@);
            let ghost run = atoms(ms, area@, seen, sib);
            let ghost head = ints(order@);
            proof {
                area.lemma_members();
                lemma_ascending(members@, area@);
                assert(ms.skip(0) =~= ms);
                assert(head + run =~= ints(order@) + run);
                assert(seen.union(run.to_set()) == visited@.union(run.to_set()));
            }
            for k in 0..m
                invariant
                    m == members@.len(),
                    ms == ints(members@),
                    sib == topology::masks(topo.sibling@),
                    head + run == ints(order@) + atoms(ms.skip(k as int), area@, visited@, sib),
                    seen.union(run.to_set()) == visited@.union(
                        atoms(ms.skip(k as int), area@, visited@, sib).to_set(),
                    ),
            {
                let c: usize = members[k];
                proof {
                    assert(ms.skip(k as int)[0] == c);
                    assert(ms.skip(k as int).drop_first() =~= ms.skip(k as int + 1));
                }
                if !visited.test(c) {
                    let mut atom = mask_for(&topo.sibling, c).and(&area).andnot(&visited);
                    if atom.is_empty() {
                        atom.set(c);
                    }
                    let list = atom.iter();
                    let len: usize = list.len();
                    let ghost before = ints(order@);
                    let ghost vis = visited@;
                    let ghost tail = atoms(
                        ms.skip(k as int + 1),
                        area@,
                        vis.union(atom@),
                        sib,
                    );
                    proof {
                        assert(atom@ == atom_of(c as int, area@, vis, sib));
                        lemma_ascending(list@, atom@);
                        assert(before + ints(list@.take(0)) =~= before);
                        assert(vis.union(ints(list@.take(0)).to_set()) =~= vis);
                    }
                    for q in 0..len
                        invariant
                            len == list@.len(),
                            ints(order@) == before + ints(list@.take(q as int)),
                            visited@ == vis.union(ints(list@.take(q as int)).to_set()),
                    {
                        let member: usize = list[q];
                        let ghost t = ints(list@.take(q as int));
                        let ghost u = ints(list@.take(q as int + 1));
                        let ghost ord = ints(order@);
                        order.push(member);
                        visited.set(member);
                        proof {
                            assert(u =~= t.push(member as int));
                            assert(ints(order@) =~= ord.push(member as int));
                            assert(ints(order@) =~= before + u);
                            assert forall|x: int| u.to_set().contains(x) == (t.to_set().contains(x)
                                || x == member) by {
                                if t.contains(x) {
                                    let j = choose|j: int| 0 <= j < t.len() && t[j] == x;
                                    assert(u[j] == x);
                                }
                                if u.contains(x) {
                                    let j = choose|j: int| 0 <= j < u.len() && u[j] == x;
                                    if j < t.len() {
                                        assert(t[j] == x);
                                    }
                                }
                                if x == member {
                                    assert(u[q as int] == x);
                                }
                            }
                            assert(visited@ =~= vis.union(u.to_set()));
                        }
                    }
                    proof {
                        assert(list@.take(len as int) =~= list@);
                        let a = ascending(atom@);
                        atom.lemma_members();
                        lemma_ascending_of(atom@);
                        assert(visited@ =~= vis.union(atom@));
                        assert(before + (a + tail) =~= ints(order@) + tail);
                        assert forall|x: int| (a + tail).to_set().contains(x) == (
                        a.to_set().contains(x) || tail.to_set().contains(x)) by {
                            let b = a + tail;
                            if a.contains(x) {
                                let j = choose|j: int| 0 <= j < a.len() && a[j] == x;
                                assert(b[j] == x);
                            }
                            if tail.contains(x) {
                                let j = choose|j: int| 0 <= j < tail.len() && tail[j] == x;
                                assert(b[j + a.len()] == x);
                            }
                            if b.contains(x) {
                                let j = choose|j: int| 0 <= j < b.len() && b[j] == x;
                                if j < a.len() {
                                    assert(a[j] == x);
                                } else {
                                    assert(tail[j - a.len()] == x);
                                }
                            }
                        }
                        assert(vis.union((a + tail).to_set()) =~= visited@.union(tail.to_set()));
                    }
                }
            }
            proof {
                assert(ms.skip(m as int) =~= seq![]);
                let none = atoms(ms.skip(m as int), area@, visited@, sib);
                assert(none =~= seq![]);
                assert(ints(order@) =~= head + run);
                assert(visited@ =~= seen.union(run.to_set()));
                assert(want =~= ints(order@) + locality(
                    cs.skip(i as int + 1),
                    node@,
                    visited@,
                    sib,
                    cluster,
                ));
            }
        }
    }
    proof {
        assert(cs.skip(n as int) =~= seq![]);
        assert(want =~= ints(order@));
    }
    order
}

// ---------------------------------------------------------------------------
// Packing one node
// ---------------------------------------------------------------------------

/// How many of `n` things the first `j` of `k` near-even parts hold.
pub open spec fn offset(n: nat, k: nat, j: int) -> int {
    j * (n / k) + if j <= n % k {
        j
    } else {
        (n % k) as int
    }
}

proof fn lemma_offset(n: nat, k: nat, j: int)
    requires
        0 < k,
        0 <= j < k,
    ensures
        offset(n, k, j + 1) == offset(n, k, j) + group::even_part(n, k, j),
        0 <= offset(n, k, j) <= offset(n, k, j + 1) <= n,
        offset(n, k, 0) == 0,
        offset(n, k, k as int) == n,
{
    let q = n / k;
    let r = n % k;
    vstd::arithmetic::div_mod::lemma_fundamental_div_mod(n as int, k as int);
    assert((j + 1) * q == j * q + q) by (nonlinear_arith);
    assert(0 * q == 0) by (nonlinear_arith);
    assert(0 <= j * q) by (nonlinear_arith)
        requires
            j >= 0,
            q >= 0,
    ;
    assert(k * q == q * k) by (nonlinear_arith);
    assert((j + 1) * q <= k * q) by (nonlinear_arith)
        requires
            j + 1 <= k,
            q >= 0,
    ;
}

/// The present CPUs cut into consecutive near-even chunks, one per seat.
pub open spec fn chunks(list: Seq<int>, seats: nat) -> Seq<Set<int>> {
    Seq::new(
        seats,
        |j: int|
            list.subrange(
                offset(list.len(), seats, j),
                offset(list.len(), seats, j + 1),
            ).to_set(),
    )
}

/// Whether group `j` still has room for one of the node's `n` CPUs.
pub open spec fn has_room(groups: Seq<Set<int>>, n: nat, j: int) -> bool {
    groups[j].len() < group::even_part(n, groups.len(), j)
}

/// The first group from `j` on with room, holding one of `sib` if `near`; past
/// the end where there is none.
pub open spec fn first_seat(
    groups: Seq<Set<int>>,
    n: nat,
    sib: Set<int>,
    near: bool,
    j: int,
) -> int
    decreases groups.len() - j,
{
    if j >= groups.len() {
        j
    } else if has_room(groups, n, j) && (near ==> !groups[j].disjoint(sib)) {
        j
    } else {
        first_seat(groups, n, sib, near, j + 1)
    }
}

/// The group an absent CPU goes to: the first with room that holds one of its
/// siblings, else the first with room.
pub open spec fn seat_for(groups: Seq<Set<int>>, n: nat, sib: Set<int>) -> int {
    let near = first_seat(groups, n, sib, true, 0);
    if near < groups.len() {
        near
    } else {
        first_seat(groups, n, sib, false, 0)
    }
}

/// `groups` with the CPUs of `absent` added one after the other.
pub open spec fn topped_up(
    groups: Seq<Set<int>>,
    absent: Seq<int>,
    n: nat,
    sib: Seq<Set<int>>,
) -> Seq<Set<int>>
    decreases absent.len(),
{
    if absent.len() == 0 {
        groups
    } else {
        let g = topped_up(groups, absent.drop_last(), n, sib);
        let c = absent.last();
        let j = seat_for(g, n, topology::mask_of(sib, c));
        g.update(j, g[j].insert(c))
    }
}

/// The CPUs of a list that are present, in order.
pub open spec fn present_of(o: Seq<int>, present: Set<int>) -> Seq<int> {
    o.filter(|c: int| present.contains(c))
}

/// The CPUs of a list that are not present, in order.
pub open spec fn absent_of(o: Seq<int>, present: Set<int>) -> Seq<int> {
    o.filter(|c: int| !present.contains(c))
}

/// One node's CPUs over `seats` groups.
pub open spec fn packed(
    node: Set<int>,
    seats: nat,
    present: Set<int>,
    sib: Seq<Set<int>>,
    cluster: Seq<Set<int>>,
) -> Seq<Set<int>> {
    let o = node_order(node, sib, cluster);
    topped_up(chunks(present_of(o, present), seats), absent_of(o, present), o.len(), sib)
}

/// How large each group is.
pub open spec fn sizes(groups: Seq<Set<int>>) -> Seq<nat> {
    groups.map_values(|g: Set<int>| g.len())
}

proof fn lemma_first_seat(groups: Seq<Set<int>>, n: nat, sib: Set<int>, near: bool, j: int)
    requires
        0 <= j <= groups.len(),
    ensures
        j <= first_seat(groups, n, sib, near, j) <= groups.len(),
        first_seat(groups, n, sib, near, j) < groups.len() ==> has_room(
            groups,
            n,
            first_seat(groups, n, sib, near, j),
        ),
        !near && first_seat(groups, n, sib, near, j) == groups.len() ==> forall|i: int|
            j <= i < groups.len() ==> !#[trigger] has_room(groups, n, i),
    decreases groups.len() - j,
{
    if j < groups.len() && !(has_room(groups, n, j) && (near ==> !groups[j].disjoint(sib))) {
        lemma_first_seat(groups, n, sib, near, j + 1);
    }
}

/// The near-even parts of `n`.
pub open spec fn quotas(n: nat, k: nat) -> Seq<nat> {
    Seq::new(k, |j: int| group::even_part(n, k, j))
}

proof fn lemma_quota_total(n: nat, k: nat, j: nat)
    requires
        0 < k,
        j <= k,
    ensures
        sets::total(quotas(n, k).take(j as int)) == offset(n, k, j as int),
    decreases j,
{
    assert(0 * (n / k) == 0);
    if j > 0 {
        lemma_quota_total(n, k, (j - 1) as nat);
        assert(quotas(n, k).take(j as int).drop_last() =~= quotas(n, k).take(j as int - 1));
        lemma_offset(n, k, j as int - 1);
    } else {
        assert(quotas(n, k).take(0) =~= seq![]);
    }
}

proof fn lemma_total_le(a: Seq<nat>, b: Seq<nat>)
    requires
        a.len() == b.len(),
        forall|i: int| 0 <= i < a.len() ==> a[i] <= b[i],
    ensures
        sets::total(a) <= sets::total(b),
        sets::total(a) == sets::total(b) ==> a == b,
    decreases a.len(),
{
    if a.len() > 0 {
        let x = a.drop_last();
        let y = b.drop_last();
        assert forall|i: int| 0 <= i < x.len() implies x[i] <= y[i] by {
            assert(x[i] == a[i] && y[i] == b[i]);
        }
        lemma_total_le(x, y);
        if sets::total(a) == sets::total(b) {
            assert(a[a.len() - 1] <= b[b.len() - 1]);
            assert(x == y);
            assert(a =~= b) by {
                assert forall|i: int| 0 <= i < a.len() implies a[i] == b[i] by {
                    if i < x.len() {
                        assert(a[i] == x[i] && b[i] == y[i]);
                    }
                }
            }
        }
    } else {
        assert(a =~= b);
    }
}

proof fn lemma_total_update(v: Seq<nat>, j: int, x: nat)
    requires
        0 <= j < v.len(),
    ensures
        sets::total(v.update(j, x)) + v[j] == sets::total(v) + x,
    decreases v.len(),
{
    if j == v.len() - 1 {
        assert(v.update(j, x).drop_last() =~= v.drop_last());
    } else {
        lemma_total_update(v.drop_last(), j, x);
        assert(v.update(j, x).drop_last() =~= v.drop_last().update(j, x));
    }
}

/// A list without repeats has as many members as entries.
proof fn lemma_distinct_len(s: Seq<int>)
    requires
        s.no_duplicates(),
    ensures
        s.to_set().finite(),
        s.to_set().len() == s.len(),
{
    vstd::seq_lib::seq_to_set_is_finite(s);
    s.unique_seq_to_set();
}

/// The chunks cut the list up, evenly.
proof fn lemma_chunks(list: Seq<int>, seats: nat)
    requires
        0 < seats,
        list.no_duplicates(),
    ensures
        chunks(list, seats).len() == seats,
        sets::partition(chunks(list, seats), list.to_set()),
        sizes(chunks(list, seats)) == quotas(list.len(), seats),
        forall|j: int| 0 <= j < seats ==> (#[trigger] chunks(list, seats)[j]).finite(),
{
    let n = list.len();
    let ch = chunks(list, seats);
    lemma_quota_total(n, seats, seats);
    assert forall|j: int| 0 <= j < seats implies (#[trigger] ch[j]).finite() && ch[j].len()
        == group::even_part(n, seats, j) && (forall|c: int| #[trigger]
        ch[j].contains(c) <==> exists|i: int|
            offset(n, seats, j) <= i < offset(n, seats, j + 1) && list[i] == c) by {
        lemma_offset(n, seats, j);
        let s = list.subrange(offset(n, seats, j), offset(n, seats, j + 1));
        assert(s.no_duplicates()) by {
            assert forall|a: int, b: int| 0 <= a < s.len() && 0 <= b < s.len() && a != b implies s[a]
                != s[b] by {
                assert(list[offset(n, seats, j) + a] != list[offset(n, seats, j) + b]);
            }
        }
        lemma_distinct_len(s);
        assert forall|c: int| #[trigger] ch[j].contains(c) <==> exists|i: int|
            offset(n, seats, j) <= i < offset(n, seats, j + 1) && list[i] == c by {
            if ch[j].contains(c) {
                let a = choose|a: int| 0 <= a < s.len() && s[a] == c;
                assert(list[offset(n, seats, j) + a] == c);
            }
            if exists|i: int|
                offset(n, seats, j) <= i < offset(n, seats, j + 1) && list[i] == c {
                let i = choose|i: int|
                    offset(n, seats, j) <= i < offset(n, seats, j + 1) && list[i] == c;
                assert(s[i - offset(n, seats, j)] == c);
            }
        }
    }
    assert(sizes(ch) =~= quotas(n, seats));
    assert forall|i: int, j: int, c: int|
        0 <= i < j < ch.len() && #[trigger] ch[i].contains(c) implies !#[trigger] ch[j].contains(c) by {
        if ch[j].contains(c) {
            let a = choose|a: int|
                offset(n, seats, i) <= a < offset(n, seats, i + 1) && list[a] == c;
            let b = choose|b: int|
                offset(n, seats, j) <= b < offset(n, seats, j + 1) && list[b] == c;
            lemma_offset_mono(n, seats, i + 1, j);
            lemma_offset(n, seats, i);
            lemma_offset(n, seats, j);
            assert(a != b);
            assert(list[a] != list[b]);
        }
    }
    assert forall|c: int| sets::in_some(ch, c) == list.to_set().contains(c) by {
        if sets::in_some(ch, c) {
            let j = choose|j: int| 0 <= j < ch.len() && (#[trigger] ch[j]).contains(c);
            let a = choose|a: int|
                offset(n, seats, j) <= a < offset(n, seats, j + 1) && list[a] == c;
            lemma_offset(n, seats, j);
            assert(list[a] == c);
        }
        if list.contains(c) {
            let a = choose|a: int| 0 <= a < list.len() && list[a] == c;
            lemma_offset(n, seats, 0);
            let j = lemma_chunk_of(n, seats, a, seats);
            assert(ch[j].contains(c));
        }
    }
    assert(sets::together(ch) =~= list.to_set());
}

proof fn lemma_offset_mono(n: nat, k: nat, i: int, j: int)
    requires
        0 < k,
        0 <= i <= j <= k,
    ensures
        offset(n, k, i) <= offset(n, k, j),
    decreases j - i,
{
    if i < j {
        lemma_offset(n, k, j - 1);
        lemma_offset_mono(n, k, i, j - 1);
    }
}

proof fn lemma_chunk_of(n: nat, k: nat, a: int, j: nat) -> (r: int)
    requires
        0 < k,
        j <= k,
        0 <= a < offset(n, k, j as int),
    ensures
        0 <= r < j,
        offset(n, k, r) <= a < offset(n, k, r + 1),
    decreases j,
{
    assert(0 * (n / k) == 0);
    if j > 0 && a < offset(n, k, j as int - 1) {
        lemma_chunk_of(n, k, a, (j - 1) as nat)
    } else {
        j as int - 1
    }
}

/// Topping up adds every absent CPU to one group, never past its quota.
proof fn lemma_topped_up(
    groups: Seq<Set<int>>,
    x: Set<int>,
    absent: Seq<int>,
    n: nat,
    sib: Seq<Set<int>>,
)
    requires
        groups.len() > 0,
        sets::partition(groups, x),
        forall|j: int|
            0 <= j < groups.len() ==> (#[trigger] groups[j]).finite() && groups[j].len()
                <= group::even_part(n, groups.len(), j),
        sets::total(sizes(groups)) + absent.len() <= n,
        absent.no_duplicates(),
        forall|c: int| #[trigger] absent.contains(c) ==> !x.contains(c),
    ensures
        topped_up(groups, absent, n, sib).len() == groups.len(),
        sets::partition(topped_up(groups, absent, n, sib), x.union(absent.to_set())),
        sets::total(sizes(topped_up(groups, absent, n, sib))) == sets::total(sizes(groups))
            + absent.len(),
        forall|j: int|
            0 <= j < groups.len() ==> {
                let g = #[trigger] topped_up(groups, absent, n, sib)[j];
                &&& g.finite()
                &&& g.len() <= group::even_part(n, groups.len(), j)
                &&& groups[j].subset_of(g)
                &&& forall|c: int| g.contains(c) && !groups[j].contains(c) ==> absent.contains(c)
            },
    decreases absent.len(),
{
    if absent.len() == 0 {
        assert(x.union(absent.to_set()) =~= x);
    } else {
        let init = absent.drop_last();
        let c = absent.last();
        let k = groups.len();
        assert(absent[absent.len() - 1] == c);
        assert forall|d: int| #[trigger] init.contains(d) implies !x.contains(d) by {
            let i = choose|i: int| 0 <= i < init.len() && init[i] == d;
            assert(absent[i] == d);
            assert(absent.contains(d));
        }
        assert(init.no_duplicates()) by {
            assert forall|a: int, b: int| 0 <= a < init.len() && 0 <= b < init.len() && a
                != b implies init[a] != init[b] by {
                assert(absent[a] != absent[b]);
            }
        }
        lemma_topped_up(groups, x, init, n, sib);
        let g = topped_up(groups, init, n, sib);
        let s = topology::mask_of(sib, c);
        let j = lemma_seat_for(g, n, s);
        let r = topped_up(groups, absent, n, sib);
        assert(r == g.update(j, g[j].insert(c)));
        assert(!init.contains(c)) by {
            if init.contains(c) {
                let i = choose|i: int| 0 <= i < init.len() && init[i] == c;
                assert(absent[i] != absent[absent.len() - 1]);
            }
        }
        assert(!x.contains(c)) by {
            assert(absent.contains(c));
        }
        let y = x.union(init.to_set());
        assert(!y.contains(c));
        assert forall|i: int| 0 <= i < k implies !(#[trigger] g[i]).contains(c) by {
            if g[i].contains(c) {
                assert(sets::together(g).contains(c));
            }
        }
        assert(sizes(r) =~= sizes(g).update(j, g[j].len() + 1));
        lemma_total_update(sizes(g), j, g[j].len() + 1);
        // Partition.
        assert forall|i: int, l: int, d: int|
            0 <= i < l < r.len() && #[trigger] r[i].contains(d) implies !#[trigger] r[l].contains(d) by {
            if d != c {
                assert(g[i].contains(d));
                assert(!g[l].contains(d));
            } else {
                if l == j {
                    assert(!g[i].contains(c));
                } else {
                    assert(!g[l].contains(c));
                }
            }
        }
        assert forall|d: int| sets::in_some(r, d) == (y.contains(d) || d == c) by {
            if sets::in_some(r, d) && d != c {
                let i = choose|i: int| 0 <= i < r.len() && (#[trigger] r[i]).contains(d);
                assert(g[i].contains(d));
                assert(sets::together(g).contains(d));
            }
            if y.contains(d) {
                assert(sets::together(g).contains(d));
                let i = choose|i: int| 0 <= i < g.len() && (#[trigger] g[i]).contains(d);
                assert(r[i].contains(d));
            }
            if d == c {
                assert(r[j].contains(c));
            }
        }
        assert(x.union(absent.to_set()) =~= y.insert(c)) by {
            assert forall|d: int| absent.contains(d) == (init.contains(d) || d == c) by {
                if absent.contains(d) {
                    let i = choose|i: int| 0 <= i < absent.len() && absent[i] == d;
                    if i < init.len() {
                        assert(init[i] == d);
                    }
                }
                if init.contains(d) {
                    let i = choose|i: int| 0 <= i < init.len() && init[i] == d;
                    assert(absent[i] == d);
                }
            }
        }
        assert(sets::together(r) =~= y.insert(c));
        assert forall|i: int| 0 <= i < k implies {
            let h = #[trigger] r[i];
            &&& h.finite()
            &&& h.len() <= group::even_part(n, k, i)
            &&& groups[i].subset_of(h)
            &&& forall|d: int| h.contains(d) && !groups[i].contains(d) ==> absent.contains(d)
        } by {
            let h0 = g[i];
            assert(groups[i].subset_of(h0));
            assert forall|d: int| r[i].contains(d) && !groups[i].contains(d) implies absent.contains(
                d,
            ) by {
                if d != c {
                    assert(init.contains(d));
                    let q = choose|q: int| 0 <= q < init.len() && init[q] == d;
                    assert(absent[q] == d);
                }
            }
        }
    }
}

/// While the groups hold fewer CPUs than their quotas, there is a seat.
proof fn lemma_seat_for(g: Seq<Set<int>>, n: nat, sib: Set<int>) -> (j: int)
    requires
        g.len() > 0,
        sets::total(sizes(g)) < n,
    ensures
        j == seat_for(g, n, sib),
        0 <= j < g.len(),
        has_room(g, n, j),
{
    let k = g.len();
    lemma_first_seat(g, n, sib, true, 0);
    lemma_first_seat(g, n, sib, false, 0);
    if first_seat(g, n, sib, false, 0) == k {
        let q = quotas(n, k);
        lemma_quota_total(n, k, k);
        assert(q.take(k as int) =~= q);
        lemma_offset(n, k, 0);
        assert forall|i: int| 0 <= i < k implies q[i] <= sizes(g)[i] by {
            assert(!has_room(g, n, i));
        }
        lemma_total_le(q, sizes(g));
    }
    seat_for(g, n, sib)
}

/// The present and the absent part of a list without repeats.
proof fn lemma_split_list(o: Seq<int>, present: Set<int>)
    requires
        o.no_duplicates(),
    ensures
        ({
            let p = present_of(o, present);
            let a = absent_of(o, present);
            &&& p.no_duplicates()
            &&& a.no_duplicates()
            &&& p.len() + a.len() == o.len()
            &&& forall|c: int| #[trigger] p.contains(c) <==> o.contains(c) && present.contains(c)
            &&& forall|c: int| #[trigger] a.contains(c) <==> o.contains(c) && !present.contains(c)
        }),
    decreases o.len(),
{
    reveal(Seq::filter);
    let p = present_of(o, present);
    let a = absent_of(o, present);
    if o.len() > 0 {
        let init = o.drop_last();
        let c = o.last();
        assert(init.no_duplicates()) by {
            assert forall|i: int, j: int| 0 <= i < init.len() && 0 <= j < init.len() && i
                != j implies init[i] != init[j] by {
                assert(o[i] != o[j]);
            }
        }
        lemma_split_list(init, present);
        let p0 = present_of(init, present);
        let a0 = absent_of(init, present);
        assert(!init.contains(c)) by {
            if init.contains(c) {
                let i = choose|i: int| 0 <= i < init.len() && init[i] == c;
                assert(o[i] != o[o.len() - 1]);
            }
        }
        assert forall|x: int| o.contains(x) == (init.contains(x) || x == c) by {
            if o.contains(x) {
                let i = choose|i: int| 0 <= i < o.len() && o[i] == x;
                if i < init.len() {
                    assert(init[i] == x);
                }
            }
            if init.contains(x) {
                let i = choose|i: int| 0 <= i < init.len() && init[i] == x;
                assert(o[i] == x);
            }
            if x == c {
                assert(o[o.len() - 1] == x);
            }
        }
        if present.contains(c) {
            assert(p =~= p0.push(c) && a =~= a0);
            lemma_concat_distinct(p0, seq![c]);
            assert(p0 + seq![c] =~= p);
            assert forall|x: int| seq![c].contains(x) == (x == c) by {
                if x == c {
                    assert(seq![c][0] == x);
                }
            }
        } else {
            assert(a =~= a0.push(c) && p =~= p0);
            lemma_concat_distinct(a0, seq![c]);
            assert(a0 + seq![c] =~= a);
            assert forall|x: int| seq![c].contains(x) == (x == c) by {
                if x == c {
                    assert(seq![c][0] == x);
                }
            }
        }
    }
}

/// A packed node: exactly `seats` groups, together the CPUs in locality order,
/// sizes as even as can be, and the present CPUs as evenly spread as can be.
pub proof fn lemma_packed(
    node: Set<int>,
    seats: nat,
    present: Set<int>,
    sib: Seq<Set<int>>,
    cluster: Seq<Set<int>>,
)
    requires
        node.finite(),
        0 < seats,
    ensures
        packed(node, seats, present, sib, cluster).len() == seats,
        sets::partition(
            packed(node, seats, present, sib, cluster),
            node_order(node, sib, cluster).to_set(),
        ),
        sizes(packed(node, seats, present, sib, cluster)) == quotas(
            node_order(node, sib, cluster).len(),
            seats,
        ),
        forall|j: int|
            0 <= j < seats ==> (#[trigger] packed(node, seats, present, sib, cluster)[j]).intersect(
                present,
            ).len() == group::even_part(
                present_of(node_order(node, sib, cluster), present).len(),
                seats,
                j,
            ),
{
    lemma_node_order(node, sib, cluster);
    lemma_packed_list(node_order(node, sib, cluster), seats, present, sib);
}

proof fn lemma_packed_list(o: Seq<int>, seats: nat, present: Set<int>, sib: Seq<Set<int>>)
    requires
        0 < seats,
        o.no_duplicates(),
    ensures
        ({
            let ch = chunks(present_of(o, present), seats);
            let g = topped_up(ch, absent_of(o, present), o.len(), sib);
            &&& g.len() == seats
            &&& sets::partition(g, o.to_set())
            &&& sizes(g) == quotas(o.len(), seats)
            &&& forall|j: int|
                0 <= j < seats ==> (#[trigger] g[j]).intersect(present).len() == group::even_part(
                    present_of(o, present).len(),
                    seats,
                    j,
                )
        }),
{
    let p = present_of(o, present);
    let a = absent_of(o, present);
    let n = o.len();
    lemma_split_list(o, present);
    lemma_chunks(p, seats);
    let ch = chunks(p, seats);
    let g = topped_up(ch, a, n, sib);
    lemma_chunks_fit(p, n, seats);
    lemma_topped_up(ch, p.to_set(), a, n, sib);
    assert(p.to_set().union(a.to_set()) =~= o.to_set()) by {
        assert forall|c: int| (p.to_set().contains(c) || a.to_set().contains(c))
            == o.to_set().contains(c) by {
            assert(p.contains(c) <==> o.contains(c) && present.contains(c));
            assert(a.contains(c) <==> o.contains(c) && !present.contains(c));
        }
    }
    lemma_sizes_full(g, n);
    assert forall|j: int| 0 <= j < seats implies (#[trigger] g[j]).intersect(present).len()
        == group::even_part(p.len(), seats, j) by {
        assert(sizes(ch)[j] == quotas(p.len(), seats)[j]);
        let h = topped_up(ch, a, n, sib)[j];
        assert(ch[j].subset_of(h));
        assert(h.intersect(present) =~= ch[j]) by {
            assert forall|c: int| h.contains(c) && present.contains(c) implies ch[j].contains(c) by {
                if !ch[j].contains(c) {
                    assert(a.contains(c));
                }
            }
            assert forall|c: int| ch[j].contains(c) implies present.contains(c) by {
                assert(sets::together(ch).contains(c));
                assert(p.contains(c));
            }
        }
    }
}

proof fn lemma_chunks_fit(p: Seq<int>, n: nat, seats: nat)
    requires
        0 < seats,
        p.no_duplicates(),
        p.len() <= n,
    ensures
        sets::total(sizes(chunks(p, seats))) == p.len(),
        forall|j: int|
            0 <= j < seats ==> (#[trigger] chunks(p, seats)[j]).finite() && chunks(
                p,
                seats,
            )[j].len() <= group::even_part(n, seats, j),
{
    let ch = chunks(p, seats);
    lemma_chunks(p, seats);
    lemma_quota_total(p.len(), seats, seats);
    lemma_offset(p.len(), seats, 0);
    assert(quotas(p.len(), seats).take(seats as int) =~= quotas(p.len(), seats));
    assert forall|j: int| 0 <= j < seats implies (#[trigger] ch[j]).finite() && ch[j].len()
        <= group::even_part(n, seats, j) by {
        assert(sizes(ch)[j] == quotas(p.len(), seats)[j]);
        lemma_even_part_mono(p.len(), n, seats, j);
    }
}

/// Groups within their quotas that hold everything are at their quotas.
proof fn lemma_sizes_full(g: Seq<Set<int>>, n: nat)
    requires
        g.len() > 0,
        sets::total(sizes(g)) == n,
        forall|j: int|
            0 <= j < g.len() ==> (#[trigger] g[j]).len() <= group::even_part(n, g.len(), j),
    ensures
        sizes(g) == quotas(n, g.len()),
{
    let seats = g.len();
    lemma_quota_total(n, seats, seats);
    lemma_offset(n, seats, 0);
    assert(quotas(n, seats).take(seats as int) =~= quotas(n, seats));
    assert forall|j: int| 0 <= j < seats implies sizes(g)[j] <= quotas(n, seats)[j] by {
        assert(g[j].len() <= group::even_part(n, seats, j));
    }
    lemma_total_le(sizes(g), quotas(n, seats));
}

proof fn lemma_even_part_mono(a: nat, b: nat, k: nat, j: int)
    requires
        a <= b,
        0 < k,
        0 <= j < k,
    ensures
        group::even_part(a, k, j) <= group::even_part(b, k, j),
{
    vstd::arithmetic::div_mod::lemma_fundamental_div_mod(a as int, k as int);
    vstd::arithmetic::div_mod::lemma_fundamental_div_mod(b as int, k as int);
    let (qa, ra) = (a / k, a % k);
    let (qb, rb) = (b / k, b % k);
    assert(qa <= qb) by (nonlinear_arith)
        requires
            a == k * qa + ra,
            b == k * qb + rb,
            a <= b,
            0 <= ra < k,
            0 <= rb < k,
    ;
    if qa == qb {
        assert(ra <= rb);
    }
}

/// Split one node's CPUs into `seats` groups: walk the node in locality order
/// (see [`fill_order`]), placing present CPUs first against per-group present
/// quotas, then topping groups up to their total size with the not-present
/// possible CPUs — each of those preferring a group that already holds one of
/// its SMT siblings.
fn pack_node(node: &CpuSet, seats: usize, topo: &CpuTopology) -> (r: Vec<CpuSet>)
    requires
        seats > 0,
    ensures
        topology::masks(r@) == packed(
            node@,
            seats as nat,
            topo.present@,
            topology::masks(topo.sibling@),
            topology::masks(topo.cluster@),
        ),
{
    let ghost sib = topology::masks(topo.sibling@);
    let ghost here = topo.present@;
    let ghost k = seats as nat;
    let order = fill_order(node, topo);
    let ghost o = ints(order@);
    proof {
        node.lemma_members();
        lemma_node_order(node@, sib, topology::masks(topo.cluster@));
        lemma_split_list(o, here);
    }
    let (present, absent) = split_present(&order, &topo.present);
    let ghost p = ints(present@);
    let ghost a = ints(absent@);
    let np: usize = present.len();
    let n: usize = order.len();
    let mut groups: Vec<CpuSet> = Vec::new();
    let mut fill: Vec<usize> = Vec::new();
    let mut pos: usize = 0;
    proof {
        lemma_chunks(p, k);
        lemma_chunks_fit(p, n as nat, k);
        lemma_offset(np as nat, k, 0);
    }
    // Both quotas give the `+1` remainders to the leading groups, which keeps
    // the present quota within the total one — the present pass can never eat
    // a later CPU's total capacity.
    for g in 0..seats
        invariant
            np == present@.len() == p.len(),
            p == ints(present@),
            k == seats,
            groups@.len() == g == fill@.len(),
            pos == offset(np as nat, k, g as int),
            forall|j: int| 0 <= j < g ==> (#[trigger] groups@[j])@ == chunks(p, k)[j],
            forall|j: int| 0 <= j < g ==> #[trigger] fill@[j] == chunks(p, k)[j].len(),
            sizes(chunks(p, k)) == quotas(np as nat, k),
    {
        proof {
            lemma_offset(np as nat, k, g as int);
        }
        let quota: usize = split_even(np, seats, g);
        let mut grp = CpuSet::new();
        let ghost lo = pos as int;
        for i in 0..quota
            invariant
                np == present@.len() == p.len(),
                p == ints(present@),
                lo + quota <= np,
                0 <= lo,
                pos == lo + i,
                grp@ == p.subrange(lo, lo + i).to_set(),
        {
            let c: usize = present[pos];
            let ghost s = p.subrange(lo, lo + i);
            let ghost u = p.subrange(lo, lo + i + 1);
            grp.set(c);
            pos = pos + 1;
            proof {
                assert(u =~= s.push(c as int));
                assert forall|x: int| u.to_set().contains(x) == (s.to_set().contains(x) || x
                    == c) by {
                    if s.contains(x) {
                        let j = choose|j: int| 0 <= j < s.len() && s[j] == x;
                        assert(u[j] == x);
                    }
                    if u.contains(x) {
                        let j = choose|j: int| 0 <= j < u.len() && u[j] == x;
                        if j < s.len() {
                            assert(s[j] == x);
                        }
                    }
                    if x == c {
                        assert(u[i as int] == x);
                    }
                }
                assert(grp@ =~= u.to_set());
            }
        }
        proof {
            assert(grp@ == chunks(p, k)[g as int]);
            assert(sizes(chunks(p, k))[g as int] == quotas(np as nat, k)[g as int]);
        }
        groups.push(grp);
        fill.push(quota);
    }
    let ghost ch = chunks(p, k);
    proof {
        assert(topology::masks(groups@) =~= ch);
        assert(topped_up(ch, a.take(0), n as nat, sib) =~= ch) by {
            assert(a.take(0) =~= seq![]);
        }
    }
    let na: usize = absent.len();
    for i in 0..na
        invariant
            na == absent@.len() == a.len(),
            a == ints(absent@),
            k == seats > 0,
            groups@.len() == seats == fill@.len(),
            sib == topology::masks(topo.sibling@),
            topology::masks(groups@) == topped_up(ch, a.take(i as int), n as nat, sib),
            forall|j: int| 0 <= j < seats ==> #[trigger] fill@[j] == groups@[j]@.len(),
            ch == chunks(p, k),
            p.no_duplicates(),
            a.no_duplicates(),
            p.len() + a.len() == n,
            forall|c: int| #[trigger] a.contains(c) ==> !p.contains(c),
    {
        let cpu: usize = absent[i];
        let sibs = mask_for(&topo.sibling, cpu);
        let ghost g = topology::masks(groups@);
        proof {
            let t = a.take(i as int);
            lemma_chunks(p, k);
            lemma_chunks_fit(p, n as nat, k);
            assert(t.no_duplicates()) by {
                assert forall|x: int, y: int| 0 <= x < t.len() && 0 <= y < t.len() && x
                    != y implies t[x] != t[y] by {
                    assert(a[x] != a[y]);
                }
            }
            assert forall|c: int| #[trigger] t.contains(c) implies !p.to_set().contains(c) by {
                let x = choose|x: int| 0 <= x < t.len() && t[x] == c;
                assert(a[x] == c);
                assert(a.contains(c));
            }
            lemma_topped_up(ch, p.to_set(), t, n as nat, sib);
            lemma_seat_for(g, n as nat, sibs@);
        }
        let j: usize = find_seat(&groups, &fill, n, &sibs);
        proof {
            let t = a.take(i as int);
            let c = cpu as int;
            assert(a[i as int] == c);
            assert(!g[j as int].contains(c)) by {
                if g[j as int].contains(c) {
                    assert(sets::together(g).contains(c));
                    if t.contains(c) {
                        let x = choose|x: int| 0 <= x < t.len() && t[x] == c;
                        assert(a[x] != a[i as int]);
                    }
                    assert(a.contains(c));
                    assert(p.to_set().contains(c) || t.to_set().contains(c));
                }
            }
            assert(has_room(g, n as nat, j as int));
            assert(g[j as int] == groups@[j as int]@);
            assert(topped_up(ch, t, n as nat, sib)[j as int].finite());
        }
        let mut grp = groups[j].clone();
        grp.set(cpu);
        let ghost before = groups@;
        groups[j] = grp;
        proof {
            assert(fill@[j as int] == before[j as int]@.len());
            lemma_even_part_bound(n as nat, k, j as int);
        }
        fill[j] = fill[j] + 1;
        proof {
            let u = a.take(i as int + 1);
            assert(u.drop_last() =~= a.take(i as int));
            assert(u.last() == cpu as int);
            assert(topology::masks(groups@) =~= topped_up(ch, u, n as nat, sib));
        }
    }
    assert(a.take(na as int) =~= a);
    groups
}

proof fn lemma_even_part_bound(n: nat, k: nat, j: int)
    requires
        0 < k,
        0 <= j < k,
    ensures
        group::even_part(n, k, j) <= n,
{
    lemma_offset(n, k, j);
}

/// Part `i` of `n` split into `k` near-even parts, the `n % k` remainder going
/// to the leading parts.
fn split_even(n: usize, k: usize, i: usize) -> (r: usize)
    requires
        i < k,
    ensures
        r == group::even_part(n as nat, k as nat, i as int),
{
    proof {
        lemma_even_part_bound(n as nat, k as nat, i as int);
    }
    if i < n % k {
        n / k + 1
    } else {
        n / k
    }
}

/// The CPUs of `order` that are present, and the others, each in order.
fn split_present(order: &Vec<usize>, present: &CpuSet) -> (r: (Vec<usize>, Vec<usize>))
    ensures
        ints(r.0@) == present_of(ints(order@), present@),
        ints(r.1@) == absent_of(ints(order@), present@),
{
    let mut p: Vec<usize> = Vec::new();
    let mut a: Vec<usize> = Vec::new();
    let n: usize = order.len();
    let ghost o = ints(order@);
    reveal(Seq::filter);
    assert(o.take(0) =~= seq![]);
    assert(ints(p@) =~= present_of(o.take(0), present@));
    assert(ints(a@) =~= absent_of(o.take(0), present@));
    for i in 0..n
        invariant
            n == order@.len(),
            o == ints(order@),
            ints(p@) == present_of(o.take(i as int), present@),
            ints(a@) == absent_of(o.take(i as int), present@),
    {
        let c: usize = order[i];
        let ghost p0 = ints(p@);
        let ghost a0 = ints(a@);
        proof {
            reveal(Seq::filter);
            assert(o.take(i as int + 1).drop_last() =~= o.take(i as int));
            assert(o.take(i as int + 1).last() == c);
        }
        if present.test(c) {
            p.push(c);
            assert(ints(p@) =~= p0.push(c as int));
        } else {
            a.push(c);
            assert(ints(a@) =~= a0.push(c as int));
        }
    }
    assert(o.take(n as int) =~= o);
    (p, a)
}

/// The group an absent CPU with siblings `sibs` goes to (see [`seat_for`]).
fn find_seat(groups: &Vec<CpuSet>, fill: &Vec<usize>, n: usize, sibs: &CpuSet) -> (j: usize)
    requires
        groups@.len() > 0,
        fill@.len() == groups@.len(),
        forall|i: int| 0 <= i < groups@.len() ==> #[trigger] fill@[i] == groups@[i]@.len(),
        seat_for(topology::masks(groups@), n as nat, sibs@) < groups@.len(),
    ensures
        j == seat_for(topology::masks(groups@), n as nat, sibs@),
{
    let near: usize = next_seat(groups, fill, n, sibs, true);
    if near < groups.len() {
        near
    } else {
        next_seat(groups, fill, n, sibs, false)
    }
}

fn next_seat(groups: &Vec<CpuSet>, fill: &Vec<usize>, n: usize, sibs: &CpuSet, near: bool) -> (j:
    usize)
    requires
        fill@.len() == groups@.len(),
        forall|i: int| 0 <= i < groups@.len() ==> #[trigger] fill@[i] == groups@[i]@.len(),
    ensures
        j == first_seat(topology::masks(groups@), n as nat, sibs@, near, 0),
{
    let ghost g = topology::masks(groups@);
    let seats: usize = groups.len();
    let mut j: usize = 0;
    while j < seats
        invariant
            seats == groups@.len() == fill@.len() == g.len(),
            g == topology::masks(groups@),
            j <= seats,
            forall|i: int| 0 <= i < groups@.len() ==> #[trigger] fill@[i] == groups@[i]@.len(),
            first_seat(g, n as nat, sibs@, near, 0) == first_seat(
                g,
                n as nat,
                sibs@,
                near,
                j as int,
            ),
        decreases seats - j,
    {
        assert(g[j as int] == groups@[j as int]@);
        if fill[j] < split_even(n, seats, j) && (!near || groups[j].intersects(sibs)) {
            return j;
        }
        j = j + 1;
    }
    j
}

// ---------------------------------------------------------------------------
// Seats and whole nodes
// ---------------------------------------------------------------------------

/// The whole seats of `spare` each weight earns.
pub open spec fn earned(w: Seq<nat>, spare: nat, tot: nat) -> Seq<nat> {
    Seq::new(w.len(), |i: int| spare * w[i] / tot)
}

/// What each weight's share of `spare` leaves over.
pub open spec fn leftover(w: Seq<nat>, spare: nat, tot: nat) -> Seq<nat> {
    Seq::new(w.len(), |i: int| (spare * w[i]) % tot)
}

/// One seat each, the whole seats earned, and one more for the first `k`
/// entries of `r`.
pub open spec fn seats_given(
    w: Seq<nat>,
    spare: nat,
    tot: nat,
    r: Seq<(u128, usize)>,
    k: int,
) -> Seq<nat> {
    Seq::new(
        w.len(),
        |i: int|
            1 + earned(w, spare, tot)[i] + if among_first(r, k, i) {
                1nat
            } else {
                0nat
            },
    )
}

/// Whether one of the first `k` entries of `r` names index `i`.
pub open spec fn among_first(r: Seq<(u128, usize)>, k: int, i: int) -> bool {
    exists|p: int| 0 <= p < k && (#[trigger] r[p]).1 == i
}

/// Largest-remainder apportionment of `seats` to weights with a floor of one
/// seat each; ties go to the lower index.
pub open spec fn apportioned(seats: nat, w: Seq<nat>) -> Seq<nat> {
    let spare = (seats - w.len()) as nat;
    let tot = sets::total(w);
    seats_given(
        w,
        spare,
        tot,
        order::ranked(group::entries(leftover(w, spare, tot)), true),
        spare - sets::total(earned(w, spare, tot)),
    )
}

proof fn lemma_earned(w: Seq<nat>, spare: nat, tot: nat)
    requires
        tot > 0,
    ensures
        tot * sets::total(earned(w, spare, tot)) + sets::total(leftover(w, spare, tot)) == spare
            * sets::total(w),
        sets::total(leftover(w, spare, tot)) <= w.len() * (tot - 1),
    decreases w.len(),
{
    let e = earned(w, spare, tot);
    let l = leftover(w, spare, tot);
    if w.len() == 0 {
        assert(spare * 0 == 0 && tot * 0 == 0);
    } else {
        let v = w.drop_last();
        let x = w.last();
        lemma_earned(v, spare, tot);
        assert(e.drop_last() =~= earned(v, spare, tot));
        assert(l.drop_last() =~= leftover(v, spare, tot));
        vstd::arithmetic::div_mod::lemma_fundamental_div_mod((spare * x) as int, tot as int);
        let q = spare * x / tot;
        assert(tot * (sets::total(e.drop_last()) + q) == tot * sets::total(e.drop_last()) + tot
            * q) by (nonlinear_arith);
        assert(spare * (sets::total(v) + x) == spare * sets::total(v) + spare * x)
            by (nonlinear_arith);
        assert(w.len() * (tot - 1) == v.len() * (tot - 1) + (tot - 1)) by (nonlinear_arith)
            requires
                w.len() == v.len() + 1,
        ;
    }
}

/// What the whole seats leave: fewer than one per entry.
proof fn lemma_seats_left(w: Seq<nat>, spare: nat)
    requires
        sets::total(w) > 0,
    ensures
        0 <= spare - sets::total(earned(w, spare, sets::total(w))) < w.len(),
{
    let tot = sets::total(w);
    let e = sets::total(earned(w, spare, tot));
    let l = sets::total(leftover(w, spare, tot));
    lemma_earned(w, spare, tot);
    assert(w.len() > 0);
    assert(e <= spare && spare - e < w.len()) by (nonlinear_arith)
        requires
            tot * e + l == spare * tot,
            l <= w.len() * (tot - 1),
            w.len() > 0,
            tot > 0,
            l >= 0,
    ;
}

proof fn lemma_seats_total(w: Seq<nat>, spare: nat, tot: nat, r: Seq<(u128, usize)>, k: int)
    requires
        tot > 0,
        0 <= k <= r.len(),
        forall|p: int| 0 <= p < r.len() ==> (#[trigger] r[p]).1 < w.len(),
        group::unique_indices(r),
    ensures
        sets::total(seats_given(w, spare, tot, r, k)) == w.len() + sets::total(
            earned(w, spare, tot),
        ) + k,
    decreases k,
{
    let s = seats_given(w, spare, tot, r, k);
    if k == 0 {
        assert forall|i: int| 0 <= i < s.len() implies #[trigger] s[i] == 1 + earned(
            w,
            spare,
            tot,
        )[i] by {
            assert(!among_first(r, 0, i));
        }
        lemma_plus_one(w, earned(w, spare, tot), s);
    } else {
        lemma_seats_total(w, spare, tot, r, k - 1);
        let t = seats_given(w, spare, tot, r, k - 1);
        let i = r[k - 1].1 as int;
        assert(!among_first(r, k - 1, i)) by {
            if among_first(r, k - 1, i) {
                let p = choose|p: int| 0 <= p < k - 1 && (#[trigger] r[p]).1 == i;
                assert(r[p].1 != r[k - 1].1);
            }
        }
        assert(s =~= t.update(i, t[i] + 1)) by {
            assert forall|x: int| 0 <= x < w.len() implies s[x] == t.update(i, t[i] + 1)[x] by {
                if among_first(r, k - 1, x) {
                    let p = choose|p: int| 0 <= p < k - 1 && (#[trigger] r[p]).1 == x;
                    assert(r[p].1 == x);
                    assert(among_first(r, k, x));
                }
                if among_first(r, k, x) && x != i {
                    let p = choose|p: int| 0 <= p < k && (#[trigger] r[p]).1 == x;
                    assert(among_first(r, k - 1, x));
                }
                if x == i {
                    assert(r[k - 1].1 == x);
                    assert(among_first(r, k, x));
                }
            }
        }
        lemma_total_update(t, i, t[i] + 1);
    }
}

proof fn lemma_plus_one(w: Seq<nat>, e: Seq<nat>, s: Seq<nat>)
    requires
        e.len() == w.len() == s.len(),
        forall|i: int| 0 <= i < s.len() ==> #[trigger] s[i] == 1 + e[i],
    ensures
        sets::total(s) == w.len() + sets::total(e),
    decreases w.len(),
{
    if w.len() > 0 {
        let s2 = s.drop_last();
        let e2 = e.drop_last();
        assert forall|i: int| 0 <= i < s2.len() implies #[trigger] s2[i] == 1 + e2[i] by {
            assert(s2[i] == s[i] && e2[i] == e[i]);
        }
        lemma_plus_one(w.drop_last(), e2, s2);
        assert(s[s.len() - 1] == 1 + e[e.len() - 1]);
    }
}

/// Every weight gets at least one seat, and all seats are given.
pub proof fn lemma_apportioned(seats: nat, w: Seq<nat>)
    requires
        0 < w.len() <= seats,
        w.len() <= usize::MAX,
        0 < sets::total(w) <= u128::MAX,
    ensures
        apportioned(seats, w).len() == w.len(),
        sets::total(apportioned(seats, w)) == seats,
        forall|i: int| 0 <= i < w.len() ==> 1 <= #[trigger] apportioned(seats, w)[i],
{
    let spare = (seats - w.len()) as nat;
    let tot = sets::total(w);
    let l = leftover(w, spare, tot);
    let e = group::entries(l);
    let r = order::ranked(e, true);
    lemma_seats_left(w, spare);
    lemma_rank_indices(l);
    lemma_seats_total(w, spare, tot, r, spare - sets::total(earned(w, spare, tot)));
}

proof fn lemma_rank_indices(l: Seq<nat>)
    requires
        l.len() <= usize::MAX,
    ensures
        order::ranked(group::entries(l), true).len() == l.len(),
        group::unique_indices(order::ranked(group::entries(l), true)),
        forall|p: int|
            0 <= p < l.len() ==> (#[trigger] order::ranked(group::entries(l), true)[p]).1 < l.len(),
        forall|i: int|
            0 <= i < l.len() ==> names(
                order::ranked(group::entries(l), true),
                #[trigger] l[i] as u128,
                i,
            ),
{
    let s = group::entries(l);
    let e = order::ranked(s, true);
    order::lemma_ranked(s, true);
    assert(s.no_duplicates()) by {
        assert forall|i: int, j: int| 0 <= i < s.len() && 0 <= j < s.len() && i != j implies s[i]
            != s[j] by {
            assert(s[i].1 == i && s[j].1 == j);
        }
    }
    assert forall|p: int| 0 <= p < e.len() implies s.contains(#[trigger] e[p]) by {
        assert(e.contains(e[p]));
    }
    assert forall|p: int| 0 <= p < e.len() implies (#[trigger] e[p]).1 < l.len() by {
        assert(s.contains(e[p]));
        let k = choose|k: int| 0 <= k < s.len() && s[k] == e[p];
        assert(s[k].1 == k);
    }
    assert forall|i: int, j: int| 0 <= i < j < e.len() implies e[i].1 != e[j].1 by {
        assert(s.contains(e[i]) && s.contains(e[j]));
        let a = choose|k: int| 0 <= k < s.len() && s[k] == e[i];
        let b = choose|k: int| 0 <= k < s.len() && s[k] == e[j];
        assert(s[a].1 == a && s[b].1 == b);
        if e[i].1 == e[j].1 {
            assert(a == b);
            assert(e[i] == e[j]);
        }
    }
    assert forall|i: int| 0 <= i < l.len() implies names(e, #[trigger] l[i] as u128, i) by {
        assert(s.contains(s[i]));
        assert(e.contains(s[i]));
        let p = choose|p: int| 0 <= p < e.len() && e[p] == s[i];
        assert(e[p].1 == i);
    }
}

/// Whether some entry of `e` is (`w`, `i`).
pub open spec fn names(e: Seq<(u128, usize)>, w: u128, i: int) -> bool {
    exists|p: int| 0 <= p < e.len() && (#[trigger] e[p]).1 == i && e[p].0 == w
}

/// Largest-remainder apportionment of `seats` to the weights with a floor of
/// one seat each. Ties go to the lower index, so the result is deterministic.
fn apportion(seats: usize, weights: &Vec<usize>) -> (r: Vec<usize>)
    requires
        0 < weights@.len() <= seats,
        sets::total(nats(weights@)) > 0,
    ensures
        nats(r@) == apportioned(seats as nat, nats(weights@)),
{
    let n: usize = weights.len();
    let spare: usize = seats - n;
    let ghost w = nats(weights@);
    let ghost tot = sets::total(w);
    let total: u128 = sum(weights);
    let mut out: Vec<usize> = Vec::new();
    let mut rems: Vec<(u128, usize)> = Vec::new();
    let mut assigned: usize = 0;
    proof {
        lemma_seats_left(w, spare as nat);
        assert(w.take(0) =~= seq![]);
        assert(earned(w, spare as nat, tot).take(0) =~= seq![]);
    }
    for i in 0..n
        invariant
            n == weights@.len() == w.len(),
            w == nats(weights@),
            tot == total == sets::total(w),
            total > 0,
            spare + n <= usize::MAX,
            sets::total(earned(w, spare as nat, tot)) <= spare,
            nats(out@) == seats_given(w, spare as nat, tot, seq![], 0).take(i as int),
            out@.len() == i,
            rems@ == group::entries(leftover(w, spare as nat, tot)).take(i as int),
            assigned == sets::total(earned(w, spare as nat, tot).take(i as int)),
    {
        let weight: usize = weights[i];
        proof {
            assert((spare as u128) * (weight as u128) <= 0xffff_ffff_ffff_ffffu128
                * 0xffff_ffff_ffff_ffffu128) by (nonlinear_arith)
                requires
                    spare <= 0xffff_ffff_ffff_ffffu128,
                    weight <= 0xffff_ffff_ffff_ffffu128,
            ;
            assert(w[i as int] == weight);
        }
        let product: u128 = (spare as u128) * (weight as u128);
        let whole: u128 = product / total;
        let rem: u128 = product % total;
        proof {
            let e = earned(w, spare as nat, tot);
            assert(e[i as int] == whole);
            group::lemma_total_take(e, i as int);
            assert(e.take(i as int + 1).drop_last() =~= e.take(i as int));
            assert(leftover(w, spare as nat, tot)[i as int] == rem);
            assert(!among_first(seq![], 0, i as int));
        }
        let ghost before = nats(out@);
        out.push(1 + whole as usize);
        rems.push((rem, i));
        assigned = assigned + whole as usize;
        assert(nats(out@) =~= seats_given(w, spare as nat, tot, seq![], 0).take(i as int + 1)) by {
            assert(nats(out@) =~= before.push((1 + whole) as nat));
        }
        assert(rems@ =~= group::entries(leftover(w, spare as nat, tot)).take(i as int + 1));
    }
    let ghost l = leftover(w, spare as nat, tot);
    proof {
        assert(rems@ =~= group::entries(l));
        assert(earned(w, spare as nat, tot).take(n as int) =~= earned(w, spare as nat, tot));
        lemma_rank_indices(l);
    }
    let order = order::rank(&rems, true);
    let left: usize = spare - assigned;
    proof {
        assert(nats(out@) =~= seats_given(w, spare as nat, tot, order@, 0)) by {
            assert forall|i: int| 0 <= i < n implies nats(out@)[i] == seats_given(
                w,
                spare as nat,
                tot,
                order@,
                0,
            )[i] by {
                assert(!among_first(seq![], 0, i) && !among_first(order@, 0, i));
                assert(seats_given(w, spare as nat, tot, seq![], 0).take(n as int)[i]
                    == seats_given(w, spare as nat, tot, seq![], 0)[i]);
            }
        }
    }
    for k in 0..left
        invariant
            n == out@.len() == w.len() == order@.len(),
            left < n,
            tot > 0,
            nats(out@) == seats_given(w, spare as nat, tot, order@, k as int),
            group::unique_indices(order@),
            forall|p: int| 0 <= p < n ==> (#[trigger] order@[p]).1 < n,
            sets::total(earned(w, spare as nat, tot)) <= spare,
            spare + n <= usize::MAX,
    {
        let i: usize = order[k].1;
        let ghost t = nats(out@);
        proof {
            assert(order@[k as int].1 < n);
            assert(!among_first(order@, k as int, i as int)) by {
                if among_first(order@, k as int, i as int) {
                    let p = choose|p: int| 0 <= p < k && (#[trigger] order@[p]).1 == i;
                    assert(order@[p].1 != order@[k as int].1);
                }
            }
            assert(t[i as int] == out@[i as int]);
            let e = earned(w, spare as nat, tot);
            group::lemma_total_take(e, i as int);
            assert(out@[i as int] == 1 + e[i as int]);
        }
        out[i] = out[i] + 1;
        proof {
            let s = seats_given(w, spare as nat, tot, order@, k as int + 1);
            assert(nats(out@) =~= s) by {
                assert forall|x: int| 0 <= x < n implies nats(out@)[x] == s[x] by {
                    assert(t[x] == seats_given(w, spare as nat, tot, order@, k as int)[x]);
                    if among_first(order@, k as int, x) {
                        let p = choose|p: int| 0 <= p < k && (#[trigger] order@[p]).1 == x;
                        assert(among_first(order@, k as int + 1, x));
                    }
                    if among_first(order@, k as int + 1, x) && x != i {
                        let p = choose|p: int| 0 <= p < k + 1 && (#[trigger] order@[p]).1 == x;
                        assert(among_first(order@, k as int, x));
                    }
                    if x == i {
                        assert(order@[k as int].1 == x);
                        assert(among_first(order@, k as int + 1, x));
                    }
                }
            }
        }
    }
    out
}

/// A list of counts as naturals.
pub open spec fn nats(v: Seq<usize>) -> Seq<nat> {
    v.map_values(|x: usize| x as nat)
}

/// The sum of `v`.
fn sum(v: &Vec<usize>) -> (r: u128)
    ensures
        r == sets::total(nats(v@)),
{
    let mut r: u128 = 0;
    let n: usize = v.len();
    let ghost w = nats(v@);
    assert(w.take(0) =~= seq![]);
    for i in 0..n
        invariant
            n == v@.len(),
            w == nats(v@),
            r == sets::total(w.take(i as int)),
            r <= i * 0xffff_ffff_ffff_ffff,
    {
        proof {
            assert(w.take(i as int + 1).drop_last() =~= w.take(i as int));
            assert((i + 1) * 0xffff_ffff_ffff_ffff == i * 0xffff_ffff_ffff_ffff
                + 0xffff_ffff_ffff_ffff) by (nonlinear_arith);
            assert((i + 1) * 0xffff_ffff_ffff_ffff <= 0xffff_ffff_ffff_ffff
                * 0xffff_ffff_ffff_ffff) by (nonlinear_arith)
                requires
                    i + 1 <= 0xffff_ffff_ffff_ffff,
            ;
        }
        r = r + v[i] as u128;
    }
    assert(w.take(n as int) =~= w);
    r
}

/// Whether group `g` is the lightest one; of equals, the first.
pub open spec fn is_lightest(loads: Seq<nat>, g: int) -> bool {
    &&& 0 <= g < loads.len()
    &&& forall|h: int|
        0 <= h < loads.len() ==> loads[g] < #[trigger] loads[h] || (loads[g] == loads[h] && g <= h)
}

/// The lightest group.
pub open spec fn lightest(loads: Seq<nat>) -> int {
    choose|g: int| is_lightest(loads, g)
}

/// `n` groups and their loads after the nodes that `e` names were placed, one
/// after the other, each into the group then lightest.
pub open spec fn piled(n: nat, nodes: Seq<Set<int>>, e: Seq<(u128, usize)>) -> (
    Seq<Set<int>>,
    Seq<nat>,
)
    decreases e.len(),
{
    if e.len() == 0 {
        (group::empty_groups(n), Seq::new(n, |i: int| 0nat))
    } else {
        let (groups, loads) = piled(n, nodes, e.drop_last());
        let g = lightest(loads);
        (
            groups.update(g, groups[g].union(nodes[e.last().1 as int])),
            loads.update(g, loads[g] + e.last().0 as nat),
        )
    }
}

proof fn lemma_lightest_is(loads: Seq<nat>, g: int)
    requires
        is_lightest(loads, g),
    ensures
        g == lightest(loads),
{
    let h = lightest(loads);
    assert(is_lightest(loads, h));
    assert(loads[g] < loads[h] || (loads[g] == loads[h] && g <= h));
    assert(loads[h] < loads[g] || (loads[h] == loads[g] && h <= g));
}

proof fn lemma_some_lightest(loads: Seq<nat>)
    requires
        loads.len() > 0,
    ensures
        is_lightest(loads, lightest(loads)),
    decreases loads.len(),
{
    let l = loads.last();
    let rest = loads.drop_last();
    if rest.len() == 0 {
        assert(is_lightest(loads, 0));
    } else {
        lemma_some_lightest(rest);
        let b = lightest(rest);
        let g = if rest[b] <= l {
            b
        } else {
            loads.len() - 1
        };
        assert forall|h: int| 0 <= h < loads.len() implies loads[g] < #[trigger] loads[h] || (
        loads[g] == loads[h] && g <= h) by {
            if h < rest.len() {
                assert(rest[h] == loads[h]);
            }
        }
        assert(is_lightest(loads, g));
    }
}

/// The lightest group.
fn find_lightest(loads: &Vec<u128>) -> (g: usize)
    requires
        loads@.len() > 0,
    ensures
        g == lightest(wide(loads@)),
        g < loads@.len(),
{
    let mut best: usize = 0;
    let n: usize = loads.len();
    let ghost w = wide(loads@);
    for h in 1..n
        invariant
            n == loads@.len(),
            w == wide(loads@),
            best < h <= n,
            forall|x: int|
                0 <= x < h ==> w[best as int] < #[trigger] w[x] || (w[best as int] == w[x] && best
                    <= x),
    {
        assert(w[h as int] == loads@[h as int] && w[best as int] == loads@[best as int]);
        if loads[h] < loads[best] {
            best = h;
        }
    }
    proof {
        assert(is_lightest(w, best as int));
        lemma_lightest_is(w, best as int);
    }
    best
}

/// Wide loads as naturals.
pub open spec fn wide(v: Seq<u128>) -> Seq<nat> {
    Seq::new(v.len(), |i: int| v[i] as nat)
}

/// Fewer groups than nodes: keep nodes whole and pack them heaviest-first
/// into the currently lightest group, so every group is a union of complete
/// nodes with near-even load.
fn pack_whole_nodes(ngroups: usize, nodes: &Vec<CpuSet>, weights: &Vec<usize>) -> (r: Vec<CpuSet>)
    requires
        ngroups > 0,
        nodes@.len() == weights@.len(),
    ensures
        topology::masks(r@) == piled(
            ngroups as nat,
            topology::masks(nodes@),
            order::ranked(group::entries(nats(weights@)), true),
        ).0,
{
    let n: usize = nodes.len();
    let ghost m = topology::masks(nodes@);
    let ghost w = nats(weights@);
    let mut entries: Vec<(u128, usize)> = Vec::new();
    for i in 0..n
        invariant
            n == weights@.len(),
            w == nats(weights@),
            entries@ == group::entries(w).take(i as int),
    {
        assert(w[i as int] == weights@[i as int]);
        entries.push((weights[i] as u128, i));
        assert(entries@ =~= group::entries(w).take(i as int + 1));
    }
    assert(entries@ =~= group::entries(w));
    proof {
        lemma_rank_indices(w);
        order::lemma_ranked(group::entries(w), true);
    }
    let order = order::rank(&entries, true);
    let ghost e = order@;
    let mut groups: Vec<CpuSet> = Vec::new();
    let mut loads: Vec<u128> = Vec::new();
    for i in 0..ngroups
        invariant
            groups@.len() == i == loads@.len(),
            forall|j: int| 0 <= j < i ==> (#[trigger] groups@[j])@ == Set::<int>::empty(),
            forall|j: int| 0 <= j < i ==> #[trigger] loads@[j] == 0,
    {
        groups.push(CpuSet::new());
        loads.push(0);
    }
    proof {
        assert(e.take(0) =~= seq![]);
        assert(topology::masks(groups@) =~= piled(ngroups as nat, m, e.take(0)).0);
        assert(wide(loads@) =~= piled(ngroups as nat, m, e.take(0)).1);
        assert forall|p: int| 0 <= p < n implies (#[trigger] e[p]).0 <= 0xffff_ffff_ffff_ffff by {
            assert(e.contains(e[p]));
            assert(group::entries(w).contains(e[p]));
            let k = choose|k: int| 0 <= k < w.len() && group::entries(w)[k] == e[p];
            assert(w[k] == weights@[k]);
        }
    }
    for i in 0..n
        invariant
            n == nodes@.len() == e.len(),
            e == order@,
            m == topology::masks(nodes@),
            ngroups > 0,
            groups@.len() == ngroups == loads@.len(),
            forall|p: int| 0 <= p < n ==> (#[trigger] e[p]).1 < n,
            forall|p: int| 0 <= p < n ==> (#[trigger] e[p]).0 <= 0xffff_ffff_ffff_ffff,
            topology::masks(groups@) == piled(ngroups as nat, m, e.take(i as int)).0,
            wide(loads@) == piled(ngroups as nat, m, e.take(i as int)).1,
            forall|j: int| 0 <= j < ngroups ==> #[trigger] loads@[j] <= i * 0xffff_ffff_ffff_ffff,
    {
        let (weight, at): (u128, usize) = order[i];
        let g: usize = find_lightest(&loads);
        let ghost before = groups@;
        let ghost lb = loads@;
        let merged = groups[g].or(&nodes[at]);
        groups[g] = merged;
        proof {
            assert(e[i as int] == (weight, at));
            assert((i + 1) * 0xffff_ffff_ffff_ffff == i * 0xffff_ffff_ffff_ffff
                + 0xffff_ffff_ffff_ffff) by (nonlinear_arith);
            assert((i + 1) * 0xffff_ffff_ffff_ffff <= 0xffff_ffff_ffff_ffff
                * 0xffff_ffff_ffff_ffff) by (nonlinear_arith)
                requires
                    i + 1 <= 0xffff_ffff_ffff_ffff,
            ;
        }
        loads[g] = loads[g] + weight;
        proof {
            let t = e.take(i as int + 1);
            assert(t.drop_last() =~= e.take(i as int));
            assert(t.last() == (weight, at));
            let (g0, l0) = piled(ngroups as nat, m, e.take(i as int));
            assert(topology::masks(before) == g0 && wide(lb) == l0);
            assert(topology::masks(groups@) =~= g0.update(
                g as int,
                g0[g as int].union(m[at as int]),
            ));
            assert(wide(loads@) =~= l0.update(g as int, l0[g as int] + weight as nat));
        }
    }
    assert(e.take(n as int) =~= e);
    groups
}

// ---------------------------------------------------------------------------
// The whole spread
// ---------------------------------------------------------------------------

/// The nodes that hold a possible CPU, clipped to the possible CPUs.
pub open spec fn areas(possible: Set<int>, nodes: Seq<Set<int>>) -> Seq<Set<int>> {
    group::clipped(possible, group::active(possible, nodes))
}

/// What each area weighs: its present CPUs; on a machine with none at all,
/// its possible ones.
pub open spec fn area_weights(areas: Seq<Set<int>>, present: Set<int>) -> Seq<nat> {
    let w = sizes(group::clipped(present, areas));
    if sets::total(w) == 0 {
        sizes(areas)
    } else {
        w
    }
}

/// The groups of all areas, each packed into its seats.
pub open spec fn packed_all(
    areas: Seq<Set<int>>,
    seats: Seq<nat>,
    present: Set<int>,
    sib: Seq<Set<int>>,
    cluster: Seq<Set<int>>,
) -> Seq<Set<int>>
    decreases areas.len(),
{
    if areas.len() == 0 {
        seq![]
    } else {
        packed_all(areas.drop_last(), seats.drop_last(), present, sib, cluster) + packed(
            areas.last(),
            seats[areas.len() - 1],
            present,
            sib,
            cluster,
        )
    }
}

/// The `n` groups the possible CPUs of a topology are spread over.
pub open spec fn spread(
    n: nat,
    possible: Set<int>,
    present: Set<int>,
    nodes: Seq<Set<int>>,
    sib: Seq<Set<int>>,
    cluster: Seq<Set<int>>,
) -> Seq<Set<int>> {
    let a = areas(possible, nodes);
    if n == 0 {
        seq![]
    } else if a.len() == 0 {
        group::empty_groups(n)
    } else if n < a.len() {
        piled(n, a, order::ranked(group::entries(area_weights(a, present)), true)).0
    } else {
        packed_all(a, apportioned(n, area_weights(a, present)), present, sib, cluster)
    }
}

/// The size of `m` clipped to `mask`, for each `m` of `v`.
fn weigh_in(v: &Vec<CpuSet>, mask: &CpuSet) -> (r: Vec<usize>)
    requires
        forall|i: int| 0 <= i < v@.len() ==> (#[trigger] v@[i])@.len() <= usize::MAX,
        forall|i: int| 0 <= i < v@.len() ==> (#[trigger] v@[i])@.finite(),
    ensures
        nats(r@) == sizes(group::clipped(mask@, topology::masks(v@))),
{
    let mut r: Vec<usize> = Vec::new();
    let n: usize = v.len();
    let ghost want = sizes(group::clipped(mask@, topology::masks(v@)));
    for i in 0..n
        invariant
            n == v@.len(),
            want == sizes(group::clipped(mask@, topology::masks(v@))),
            forall|i: int| 0 <= i < v@.len() ==> (#[trigger] v@[i])@.len() <= usize::MAX,
            forall|i: int| 0 <= i < v@.len() ==> (#[trigger] v@[i])@.finite(),
            nats(r@) == want.take(i as int),
    {
        let ghost before = nats(r@);
        let m = v[i].and(mask);
        proof {
            assert(m@.subset_of(v@[i as int]@));
            lemma_len_subset(m@, v@[i as int]@);
            assert(m@ =~= mask@.intersect(v@[i as int]@));
        }
        let k: usize = m.weight();
        r.push(k);
        assert(nats(r@) =~= before.push(k as nat));
        assert(want[i as int] == k);
        assert(nats(r@) =~= want.take(i as int + 1));
    }
    assert(want.take(n as int) =~= want);
    r
}

/// Partition all possible CPUs of `topo` into `ngroups` groups, evenly per
/// NUMA / cluster / SMT locality (see the module docs for the full contract).
/// Always returns exactly `ngroups` sets; trailing sets may be empty when
/// there are more groups than CPUs.
pub fn spread_cpus(ngroups: usize, topo: &CpuTopology) -> (r: Vec<CpuSet>)
    requires
        topo.possible@.len() <= usize::MAX,
    ensures
        topology::masks(r@) == spread(
            ngroups as nat,
            topo.possible@,
            topo.present@,
            topology::masks(topo.node_to_cpus@),
            topology::masks(topo.sibling@),
            topology::masks(topo.cluster@),
        ),
{
    let mut groups: Vec<CpuSet> = Vec::new();
    if ngroups == 0 {
        assert(topology::masks(groups@) =~= seq![]);
        return groups;
    }
    let ghost possible = topo.possible@;
    let ghost a = areas(possible, topology::masks(topo.node_to_cpus@));
    // Non-empty nodes in node-id order, clipped to the possible mask.
    let active = group::active_nodes(&topo.possible, &topo.node_to_cpus);
    let mut nodes: Vec<CpuSet> = Vec::new();
    let n: usize = active.len();
    proof {
        topo.possible.lemma_members();
    }
    for i in 0..n
        invariant
            n == active@.len(),
            possible == topo.possible@,
            possible.finite(),
            a == group::clipped(possible, topology::masks(active@)),
            topology::masks(nodes@) == a.take(i as int),
    {
        let ghost before = topology::masks(nodes@);
        let m = active[i].and(&topo.possible);
        assert(m@ =~= a[i as int]);
        nodes.push(m);
        assert(topology::masks(nodes@) =~= before.push(a[i as int]));
        assert(topology::masks(nodes@) =~= a.take(i as int + 1));
    }
    assert(a.take(n as int) =~= a);
    proof {
        group::lemma_active(possible, topology::masks(topo.node_to_cpus@));
        lemma_area_sizes(possible, topology::masks(topo.node_to_cpus@));
        assert forall|i: int| 0 <= i < nodes@.len() implies (#[trigger] nodes@[i])@.len()
            <= usize::MAX && nodes@[i]@.finite() by {
            assert(a[i] == topology::masks(nodes@)[i]);
        }
    }
    if nodes.len() == 0 {
        for i in 0..ngroups
            invariant
                groups@.len() == i,
                forall|j: int| 0 <= j < i ==> (#[trigger] groups@[j])@ == Set::<int>::empty(),
        {
            groups.push(CpuSet::new());
        }
        assert(topology::masks(groups@) =~= group::empty_groups(ngroups as nat));
        return groups;
    }
    // Seat weight = present CPUs per node; a machine with no present CPUs at
    // all (synthetic topologies) falls back to possible CPUs.
    let mut weights = weigh_in(&nodes, &topo.present);
    let total: u128 = sum(&weights);
    if total == 0 {
        weights = weigh_in(&nodes, &topo.possible);
        proof {
            assert(group::clipped(possible, a) =~= a) by {
                assert forall|i: int| 0 <= i < a.len() implies group::clipped(possible, a)[i]
                    == a[i] by {
                    assert(possible.intersect(a[i]) =~= a[i]);
                }
            }
            sets::lemma_total_bounds(sizes(a), 1);
        }
    }
    assert(nats(weights@) == area_weights(a, topo.present@));
    assert(nats(weights@).len() == a.len());
    if ngroups < nodes.len() {
        return pack_whole_nodes(ngroups, &nodes, &weights);
    }
    proof {
        let w = nats(weights@);
        if total == 0 {
            sets::lemma_total_bounds(w, 1);
            assert(sets::total(w) >= w.len() * 1);
        }
    }
    let seats = apportion(ngroups, &weights);
    let ghost s = nats(seats@);
    proof {
        lemma_total_wide(nats(weights@));
        lemma_apportioned(ngroups as nat, nats(weights@));
        assert(a.take(0) =~= seq![]);
    }
    for i in 0..n
        invariant
            n == nodes@.len() == a.len() == seats@.len(),
            a == topology::masks(nodes@),
            s == nats(seats@),
            forall|j: int| 0 <= j < n ==> 1 <= #[trigger] s[j],
            topology::masks(groups@) == packed_all(
                a.take(i as int),
                s.take(i as int),
                topo.present@,
                topology::masks(topo.sibling@),
                topology::masks(topo.cluster@),
            ),
    {
        assert(s[i as int] == seats@[i as int]);
        let mut part = pack_node(&nodes[i], seats[i], topo);
        let ghost before = topology::masks(groups@);
        let ghost tail = topology::masks(part@);
        groups.append(&mut part);
        proof {
            assert(topology::masks(groups@) =~= before + tail);
            assert(a.take(i as int + 1).drop_last() =~= a.take(i as int));
            assert(s.take(i as int + 1).drop_last() =~= s.take(i as int));
        }
    }
    assert(s.take(n as int) =~= s);
    groups
}

/// Every area holds a CPU, and none more than there are possible ones.
proof fn lemma_area_sizes(possible: Set<int>, nodes: Seq<Set<int>>)
    requires
        possible.finite(),
    ensures
        forall|i: int|
            0 <= i < areas(possible, nodes).len() ==> {
                &&& 0 < (#[trigger] areas(possible, nodes)[i]).len() <= possible.len()
                &&& areas(possible, nodes)[i].finite()
                &&& areas(possible, nodes)[i].subset_of(possible)
            },
        forall|i: int|
            0 <= i < areas(possible, nodes).len() ==> 1 <= #[trigger] sizes(
                areas(possible, nodes),
            )[i],
{
    group::lemma_active(possible, nodes);
    let a = areas(possible, nodes);
    assert forall|i: int| 0 <= i < a.len() implies 0 < (#[trigger] a[i]).len() <= possible.len()
        && a[i].finite() && a[i].subset_of(possible) by {
        assert(a[i] == possible.intersect(group::active(possible, nodes)[i]));
        lemma_len_subset(a[i], possible);
    }
}

/// Counts that fit a machine word add up to less than a wide one.
proof fn lemma_total_wide(w: Seq<nat>)
    requires
        w.len() <= usize::MAX,
        forall|i: int| 0 <= i < w.len() ==> #[trigger] w[i] <= usize::MAX,
    ensures
        sets::total(w) <= w.len() * 0xffff_ffff_ffff_ffff <= u128::MAX,
    decreases w.len(),
{
    assert(w.len() * 0xffff_ffff_ffff_ffff <= 0xffff_ffff_ffff_ffff * 0xffff_ffff_ffff_ffff)
        by (nonlinear_arith)
        requires
            w.len() <= 0xffff_ffff_ffff_ffff,
    ;
    if w.len() > 0 {
        let v = w.drop_last();
        assert forall|i: int| 0 <= i < v.len() implies #[trigger] v[i] <= usize::MAX by {
            assert(v[i] == w[i]);
        }
        lemma_total_wide(v);
        assert(w.len() * 0xffff_ffff_ffff_ffff == v.len() * 0xffff_ffff_ffff_ffff
            + 0xffff_ffff_ffff_ffff) by (nonlinear_arith)
            requires
                w.len() == v.len() + 1,
        ;
        assert(w[w.len() - 1] <= usize::MAX);
    }
}

// ---------------------------------------------------------------------------
// What the spread promises
// ---------------------------------------------------------------------------

/// The members of the nodes that `e` names.
spec fn named(nodes: Seq<Set<int>>, e: Seq<(u128, usize)>) -> Set<int> {
    Set::new(|c: int| in_named(nodes, e, c))
}

spec fn in_named(nodes: Seq<Set<int>>, e: Seq<(u128, usize)>, c: int) -> bool {
    exists|p: int| 0 <= p < e.len() && nodes[(#[trigger] e[p]).1 as int].contains(c)
}

/// Whether every group holds each node whole or not at all.
pub open spec fn keeps_whole(groups: Seq<Set<int>>, nodes: Seq<Set<int>>) -> bool {
    forall|g: int, i: int|
        0 <= g < groups.len() && 0 <= i < nodes.len() ==> (#[trigger] nodes[i]).subset_of(
            #[trigger] groups[g],
        ) || nodes[i].disjoint(groups[g])
}

proof fn lemma_piled(n: nat, nodes: Seq<Set<int>>, e: Seq<(u128, usize)>)
    requires
        n > 0,
        sets::apart(nodes),
        group::unique_indices(e),
        forall|p: int| 0 <= p < e.len() ==> (#[trigger] e[p]).1 < nodes.len(),
    ensures
        piled(n, nodes, e).0.len() == n,
        piled(n, nodes, e).1.len() == n,
        sets::partition(piled(n, nodes, e).0, named(nodes, e)),
        keeps_whole(piled(n, nodes, e).0, nodes),
    decreases e.len(),
{
    let (groups, loads) = piled(n, nodes, e);
    if e.len() == 0 {
        assert forall|c: int| !sets::in_some(groups, c) by {}
        assert(sets::together(groups) =~= named(nodes, e));
    } else {
        let f = e.drop_last();
        assert forall|p: int| 0 <= p < f.len() implies (#[trigger] f[p]).1 < nodes.len() by {
            assert(f[p] == e[p]);
        }
        assert(group::unique_indices(f)) by {
            assert forall|i: int, j: int| 0 <= i < j < f.len() implies f[i].1 != f[j].1 by {
                assert(e[i].1 != e[j].1);
            }
        }
        lemma_piled(n, nodes, f);
        let (g0, l0) = piled(n, nodes, f);
        let k = e[e.len() - 1].1 as int;
        let x = nodes[k];
        lemma_some_lightest(l0);
        let g = lightest(l0);
        assert forall|c: int| x.contains(c) implies !named(nodes, f).contains(c) by {
            if in_named(nodes, f, c) {
                let p = choose|p: int|
                    0 <= p < f.len() && nodes[(#[trigger] f[p]).1 as int].contains(c);
                assert(f[p] == e[p]);
                let i = e[p].1 as int;
                assert(i != k);
                assert(nodes[i].contains(c) && nodes[k].contains(c));
            }
        }
        lemma_partition_grow(g0, named(nodes, f), g, x);
        assert(named(nodes, f).union(x) =~= named(nodes, e)) by {
            assert forall|c: int| (named(nodes, f).contains(c) || x.contains(c)) == named(
                nodes,
                e,
            ).contains(c) by {
                if in_named(nodes, f, c) {
                    let p = choose|p: int|
                        0 <= p < f.len() && nodes[(#[trigger] f[p]).1 as int].contains(c);
                    assert(e[p] == f[p]);
                    assert(in_named(nodes, e, c));
                }
                if x.contains(c) {
                    assert(nodes[e[e.len() - 1].1 as int].contains(c));
                    assert(in_named(nodes, e, c));
                }
                if in_named(nodes, e, c) {
                    let p = choose|p: int|
                        0 <= p < e.len() && nodes[(#[trigger] e[p]).1 as int].contains(c);
                    if p < f.len() {
                        assert(f[p] == e[p]);
                        assert(in_named(nodes, f, c));
                    }
                }
            }
        }
        assert forall|h: int, i: int|
            0 <= h < groups.len() && 0 <= i < nodes.len() implies (#[trigger] nodes[i]).subset_of(
            #[trigger] groups[h],
        ) || nodes[i].disjoint(groups[h]) by {
            assert(nodes[i].subset_of(g0[h]) || nodes[i].disjoint(g0[h]));
            if h == g && i != k {
                assert(nodes[i].disjoint(x)) by {
                    if !nodes[i].disjoint(x) {
                        let c = choose|c: int| nodes[i].contains(c) && x.contains(c);
                        assert(nodes[i].contains(c) && nodes[k].contains(c));
                    }
                }
                if nodes[i].disjoint(g0[h]) {
                    assert(nodes[i].disjoint(groups[h]));
                }
            }
        }
    }
}

/// A part that takes in members nobody had makes a partition of all.
proof fn lemma_partition_grow(parts: Seq<Set<int>>, whole: Set<int>, g: int, x: Set<int>)
    requires
        sets::partition(parts, whole),
        0 <= g < parts.len(),
        whole.disjoint(x),
    ensures
        sets::partition(parts.update(g, parts[g].union(x)), whole.union(x)),
{
    let q = parts.update(g, parts[g].union(x));
    assert forall|i: int, c: int|
        0 <= i < parts.len() && #[trigger] parts[i].contains(c) implies whole.contains(c) by {
        assert(sets::together(parts).contains(c));
    }
    assert forall|i: int, j: int, c: int|
        0 <= i < j < q.len() && #[trigger] q[i].contains(c) implies !#[trigger] q[j].contains(
        c,
    ) by {
        if q[j].contains(c) {
            if i == g && x.contains(c) {
                assert(parts[j].contains(c));
            } else if j == g && x.contains(c) {
                assert(parts[i].contains(c));
            } else {
                assert(parts[i].contains(c) && parts[j].contains(c));
            }
        }
    }
    assert forall|c: int| sets::together(q).contains(c) == (whole.contains(c) || x.contains(c)) by {
        if sets::in_some(q, c) {
            let i = choose|i: int| 0 <= i < q.len() && (#[trigger] q[i]).contains(c);
            if !x.contains(c) {
                assert(parts[i].contains(c));
            }
        }
        if whole.contains(c) {
            assert(sets::together(parts).contains(c));
            let i = choose|i: int| 0 <= i < parts.len() && (#[trigger] parts[i]).contains(c);
            assert(q[i].contains(c));
        }
        if x.contains(c) {
            assert(q[g].contains(c));
        }
    }
    assert(sets::together(q) =~= whole.union(x));
}

#[verifier::rlimit(60)]
proof fn lemma_packed_all(
    a: Seq<Set<int>>,
    s: Seq<nat>,
    present: Set<int>,
    sib: Seq<Set<int>>,
    cluster: Seq<Set<int>>,
)
    requires
        a.len() == s.len(),
        forall|i: int| 0 <= i < a.len() ==> (#[trigger] a[i]).finite(),
        forall|i: int| 0 <= i < s.len() ==> 1 <= #[trigger] s[i],
    ensures
        packed_all(a, s, present, sib, cluster).len() == sets::total(s),
        masks_hold_self(sib) && masks_hold_self(cluster) && sets::apart(a) ==> sets::partition(
            packed_all(a, s, present, sib, cluster),
            sets::together(a),
        ),
        forall|i: int|
            0 <= i < a.len() ==> sets::total(s.take(i)) + #[trigger] s[i] <= sets::total(s)
                && packed_all(a, s, present, sib, cluster).subrange(
                sets::total(s.take(i)) as int,
                (sets::total(s.take(i)) + s[i]) as int,
            ) == packed(a[i], s[i], present, sib, cluster),
    decreases a.len(),
{
    let all = packed_all(a, s, present, sib, cluster);
    if a.len() == 0 {
        sets::lemma_partition_empty();
        assert(sets::together(a) =~= Set::empty());
    } else {
        let b = a.drop_last();
        let t = s.drop_last();
        let k = a.len() - 1;
        assert forall|i: int| 0 <= i < b.len() implies (#[trigger] b[i]).finite() by {
            assert(b[i] == a[i]);
        }
        assert forall|i: int| 0 <= i < t.len() implies 1 <= #[trigger] t[i] by {
            assert(t[i] == s[i]);
        }
        lemma_packed_all(b, t, present, sib, cluster);
        assert(1 <= s[k]);
        assert(a[k].finite());
        lemma_packed(a[k], s[k], present, sib, cluster);
        lemma_node_order(a[k], sib, cluster);
        let head = packed_all(b, t, present, sib, cluster);
        let tail = packed(a[k], s[k], present, sib, cluster);
        assert(all == head + tail);
        assert(sets::total(s) == sets::total(t) + s[k]);
        if masks_hold_self(sib) && masks_hold_self(cluster) && sets::apart(a) {
            assert(sets::apart(b)) by {
                assert forall|i: int, j: int, c: int|
                    0 <= i < j < b.len() && #[trigger] b[i].contains(c) implies !#[trigger] b[j].contains(
                    c,
                ) by {
                    assert(a[i].contains(c));
                    assert(b[j] == a[j]);
                    assert(!a[j].contains(c));
                }
            }
            assert(sets::together(b).disjoint(a[k])) by {
                assert forall|c: int| sets::together(b).contains(c) implies !a[k].contains(c) by {
                    let i = choose|i: int| 0 <= i < b.len() && (#[trigger] b[i]).contains(c);
                    assert(a[i].contains(c));
                }
            }
            sets::lemma_partition_append(head, sets::together(b), tail, a[k]);
            assert(sets::together(b).union(a[k]) =~= sets::together(a)) by {
                assert forall|c: int| (sets::together(b).contains(c) || a[k].contains(c))
                    == sets::together(a).contains(c) by {
                    if sets::in_some(b, c) {
                        let i = choose|i: int| 0 <= i < b.len() && (#[trigger] b[i]).contains(c);
                        assert(a[i].contains(c));
                    }
                    if sets::in_some(a, c) {
                        let i = choose|i: int| 0 <= i < a.len() && (#[trigger] a[i]).contains(c);
                        if i < k {
                            assert(b[i].contains(c));
                        }
                    }
                }
            }
        }
        assert forall|i: int| 0 <= i < a.len() implies sets::total(s.take(i)) + #[trigger] s[i]
            <= sets::total(s) && all.subrange(
            sets::total(s.take(i)) as int,
            (sets::total(s.take(i)) + s[i]) as int,
        ) == packed(a[i], s[i], present, sib, cluster) by {
            if i < k {
                assert(s.take(i) =~= t.take(i));
                assert(t[i] == s[i] && a[i] == b[i]);
                let lo = sets::total(s.take(i)) as int;
                assert(head.subrange(lo, lo + s[i]) == packed(b[i], t[i], present, sib, cluster));
                assert(all.subrange(lo, lo + s[i]) =~= head.subrange(lo, lo + s[i]));
            } else {
                assert(s.take(i) =~= t);
                let lo = sets::total(t) as int;
                assert(all.subrange(lo, lo + s[k]) =~= tail);
            }
        }
    }
}

/// The areas of nodes that cut the possible CPUs up do so themselves.
proof fn lemma_areas(possible: Set<int>, nodes: Seq<Set<int>>)
    requires
        possible.finite(),
        group::nodes_cover_once(possible, nodes),
    ensures
        sets::partition(areas(possible, nodes), possible),
{
    group::lemma_active(possible, nodes);
    assert(possible.intersect(sets::together(nodes)) =~= possible) by {
        assert forall|c: int| possible.contains(c) implies sets::together(nodes).contains(c) by {
            let cl = group::clipped(possible, nodes);
            assert(sets::together(cl).contains(c));
            let i = choose|i: int| 0 <= i < cl.len() && (#[trigger] cl[i]).contains(c);
            assert(nodes[i].contains(c));
        }
    }
}

proof fn lemma_area_weights(possible: Set<int>, present: Set<int>, nodes: Seq<Set<int>>)
    requires
        possible.finite(),
        possible.len() <= usize::MAX,
        areas(possible, nodes).len() <= usize::MAX,
        areas(possible, nodes).len() > 0,
    ensures
        area_weights(areas(possible, nodes), present).len() == areas(possible, nodes).len(),
        0 < sets::total(area_weights(areas(possible, nodes), present)) <= u128::MAX,
{
    let a = areas(possible, nodes);
    let w = area_weights(a, present);
    lemma_area_sizes(possible, nodes);
    assert forall|i: int| 0 <= i < w.len() implies #[trigger] w[i] <= usize::MAX by {
        assert(a[i].len() <= possible.len());
        lemma_len_subset(present.intersect(a[i]), a[i]);
    }
    lemma_total_wide(w);
    sets::lemma_total_bounds(sizes(a), 1);
}

/// Exactly `n` groups come back; where each possible CPU is in one node and
/// every mask holds its own CPU, the groups share no CPU and together are
/// every possible one.
pub proof fn lemma_spread_covers_once(
    n: nat,
    possible: Set<int>,
    present: Set<int>,
    nodes: Seq<Set<int>>,
    sib: Seq<Set<int>>,
    cluster: Seq<Set<int>>,
)
    requires
        possible.finite(),
        possible.len() <= usize::MAX,
        nodes.len() <= usize::MAX,
        group::nodes_cover_once(possible, nodes),
        masks_hold_self(sib),
        masks_hold_self(cluster),
    ensures
        spread(n, possible, present, nodes, sib, cluster).len() == n,
        0 < n ==> sets::partition(spread(n, possible, present, nodes, sib, cluster), possible),
{
    let a = areas(possible, nodes);
    let w = area_weights(a, present);
    lemma_areas(possible, nodes);
    lemma_area_sizes(possible, nodes);
    nodes.lemma_filter_len(|m: Set<int>| !possible.disjoint(m));
    if n == 0 {
    } else if a.len() == 0 {
        let g = group::empty_groups(n);
        assert(sets::together(g) =~= sets::together(a)) by {
            assert forall|c: int| sets::together(g).contains(c) == sets::together(a).contains(
                c,
            ) by {}
        }
    } else {
        lemma_area_weights(possible, present, nodes);
        if n < a.len() {
            let e = order::ranked(group::entries(w), true);
            lemma_rank_indices(w);
            lemma_piled(n, a, e);
            assert(named(a, e) =~= possible) by {
                assert forall|c: int| named(a, e).contains(c) == possible.contains(c) by {
                    if in_named(a, e, c) {
                        let p = choose|p: int|
                            0 <= p < e.len() && a[(#[trigger] e[p]).1 as int].contains(c);
                        assert(sets::together(a).contains(c));
                    }
                    if possible.contains(c) {
                        assert(sets::together(a).contains(c));
                        let i = choose|i: int| 0 <= i < a.len() && (#[trigger] a[i]).contains(c);
                        assert(names(e, w[i] as u128, i));
                        let p = choose|p: int|
                            0 <= p < e.len() && (#[trigger] e[p]).1 == i && e[p].0 == w[i] as u128;
                        assert(a[e[p].1 as int].contains(c));
                    }
                }
            }
        } else {
            lemma_apportioned(n, w);
            lemma_packed_all(a, apportioned(n, w), present, sib, cluster);
        }
    }
}

/// With fewer groups than nodes that hold a possible CPU, every group is a
/// union of whole nodes.
pub proof fn lemma_spread_keeps_nodes_whole(
    n: nat,
    possible: Set<int>,
    present: Set<int>,
    nodes: Seq<Set<int>>,
    sib: Seq<Set<int>>,
    cluster: Seq<Set<int>>,
)
    requires
        possible.finite(),
        possible.len() <= usize::MAX,
        nodes.len() <= usize::MAX,
        group::nodes_cover_once(possible, nodes),
        0 < n < areas(possible, nodes).len(),
    ensures
        keeps_whole(
            spread(n, possible, present, nodes, sib, cluster),
            areas(possible, nodes),
        ),
{
    let a = areas(possible, nodes);
    let w = area_weights(a, present);
    lemma_areas(possible, nodes);
    nodes.lemma_filter_len(|m: Set<int>| !possible.disjoint(m));
    lemma_area_weights(possible, present, nodes);
    lemma_rank_indices(w);
    lemma_piled(n, a, order::ranked(group::entries(w), true));
}

/// With a group for every node that holds a possible CPU, the groups come
/// node by node: each node's own run of them, at least one, packed from that
/// node alone, with its present CPUs spread over the run to within one.
#[verifier::spinoff_prover]
pub proof fn lemma_spread_node_pure(
    n: nat,
    possible: Set<int>,
    present: Set<int>,
    nodes: Seq<Set<int>>,
    sib: Seq<Set<int>>,
    cluster: Seq<Set<int>>,
    i: int,
    j: int,
    k: int,
)
    requires
        possible.finite(),
        possible.len() <= usize::MAX,
        nodes.len() <= usize::MAX,
        areas(possible, nodes).len() <= n,
        0 <= i < areas(possible, nodes).len(),
        run_start(n, possible, present, nodes, i) <= j < run_start(
            n,
            possible,
            present,
            nodes,
            i + 1,
        ),
        run_start(n, possible, present, nodes, i) <= k < run_start(
            n,
            possible,
            present,
            nodes,
            i + 1,
        ),
    ensures
        0 <= j < n,
        spread(n, possible, present, nodes, sib, cluster).len() == n,
        spread(n, possible, present, nodes, sib, cluster)[j].subset_of(areas(possible, nodes)[i]),
        spread(n, possible, present, nodes, sib, cluster)[j].intersect(present).len() <= spread(
            n,
            possible,
            present,
            nodes,
            sib,
            cluster,
        )[k].intersect(present).len() + 1,
{
    let a = areas(possible, nodes);
    let w = area_weights(a, present);
    let s = apportioned(n, w);
    nodes.lemma_filter_len(|m: Set<int>| !possible.disjoint(m));
    lemma_area_sizes(possible, nodes);
    lemma_area_weights(possible, present, nodes);
    lemma_apportioned(n, w);
    lemma_packed_all(a, s, present, sib, cluster);
    let all = packed_all(a, s, present, sib, cluster);
    assert(s.take(i + 1).drop_last() =~= s.take(i));
    assert(s.take(i + 1).last() == s[i]);
    let lo = sets::total(s.take(i)) as int;
    let part = packed(a[i], s[i], present, sib, cluster);
    assert(all.subrange(lo, lo + s[i]) == part);
    assert(1 <= s[i]);
    assert(all[j] == part[j - lo] && all[k] == part[k - lo]);
    lemma_packed_within(a[i], s[i], present, sib, cluster, j - lo, k - lo);
}

/// What is packed from a node is of that node, and its present CPUs are spread
/// to within one.
proof fn lemma_packed_within(
    node: Set<int>,
    seats: nat,
    present: Set<int>,
    sib: Seq<Set<int>>,
    cluster: Seq<Set<int>>,
    j: int,
    k: int,
)
    requires
        node.finite(),
        0 <= j < seats,
        0 <= k < seats,
    ensures
        packed(node, seats, present, sib, cluster)[j].subset_of(node),
        packed(node, seats, present, sib, cluster)[j].intersect(present).len() <= packed(
            node,
            seats,
            present,
            sib,
            cluster,
        )[k].intersect(present).len() + 1,
{
    lemma_packed(node, seats, present, sib, cluster);
    lemma_node_order(node, sib, cluster);
    let part = packed(node, seats, present, sib, cluster);
    assert forall|c: int| part[j].contains(c) implies node.contains(c) by {
        assert(sets::together(part).contains(c));
        assert(node_order(node, sib, cluster).contains(c));
    }
}

/// The first group of area `i`: the areas before it have the ones before.
pub open spec fn run_start(
    n: nat,
    possible: Set<int>,
    present: Set<int>,
    nodes: Seq<Set<int>>,
    i: int,
) -> int {
    sets::total(
        apportioned(n, area_weights(areas(possible, nodes), present)).take(i),
    ) as int
}

/// Every node that holds a possible CPU gets at least one group of its own
/// when there are as many groups as such nodes, and every group is some
/// node's.
pub proof fn lemma_spread_runs(
    n: nat,
    possible: Set<int>,
    present: Set<int>,
    nodes: Seq<Set<int>>,
    i: int,
)
    requires
        possible.finite(),
        possible.len() <= usize::MAX,
        nodes.len() <= usize::MAX,
        areas(possible, nodes).len() <= n,
        0 <= i < areas(possible, nodes).len(),
    ensures
        run_start(n, possible, present, nodes, 0) == 0,
        run_start(n, possible, present, nodes, i) < run_start(n, possible, present, nodes, i + 1),
        run_start(n, possible, present, nodes, areas(possible, nodes).len() as int) == n,
{
    let a = areas(possible, nodes);
    let w = area_weights(a, present);
    let s = apportioned(n, w);
    nodes.lemma_filter_len(|m: Set<int>| !possible.disjoint(m));
    lemma_area_weights(possible, present, nodes);
    lemma_apportioned(n, w);
    assert(s.take(0) =~= seq![]);
    assert(s.take(i + 1).drop_last() =~= s.take(i));
    assert(s.take(i + 1).last() == s[i]);
    assert(1 <= s[i]);
    assert(s.take(a.len() as int) =~= s);
}

// ---------------------------------------------------------------------------
// Siblings and clusters stay together
// ---------------------------------------------------------------------------

/// Whether `m` stands in `o` from `lo` on: `m.len()` items in a row, which are
/// its members.
pub open spec fn stands_at(o: Seq<int>, m: Set<int>, lo: int) -> bool {
    &&& 0 <= lo
    &&& lo + m.len() <= o.len()
    &&& o.subrange(lo, lo + m.len()).to_set() == m
}

/// Whether `m` is one SMT sibling set of the node: each of its CPUs has just
/// `m` for siblings there, no other CPU has one of them, and no cluster cuts
/// through it.
pub open spec fn sibling_set(
    m: Set<int>,
    node: Set<int>,
    sib: Seq<Set<int>>,
    cluster: Seq<Set<int>>,
) -> bool {
    &&& m != Set::<int>::empty()
    &&& m.subset_of(node)
    &&& forall|c: int|
        m.contains(c) ==> (#[trigger] topology::mask_of(sib, c)).intersect(node) == m
    &&& forall|c: int|
        node.contains(c) && !m.contains(c) ==> (#[trigger] topology::mask_of(sib, c)).disjoint(m)
    &&& forall|c: int|
        m.contains(c) && (#[trigger] topology::mask_of(cluster, c)) != Set::<int>::empty()
            ==> m.subset_of(topology::mask_of(cluster, c))
    &&& forall|c: int|
        node.contains(c) && !m.contains(c) ==> m.subset_of(
            #[trigger] topology::mask_of(cluster, c),
        ) || topology::mask_of(cluster, c).disjoint(m)
}

/// Whether `m` is one cluster of the node: each of its CPUs has just `m` for
/// its cluster there, and no other CPU has one of them in its cluster, nor,
/// where it has no cluster, among its siblings.
pub open spec fn cluster_set(
    m: Set<int>,
    node: Set<int>,
    sib: Seq<Set<int>>,
    cluster: Seq<Set<int>>,
) -> bool {
    &&& m != Set::<int>::empty()
    &&& m.subset_of(node)
    &&& forall|c: int|
        m.contains(c) ==> (#[trigger] topology::mask_of(cluster, c)).intersect(node) == m
    &&& forall|c: int|
        node.contains(c) && !m.contains(c) ==> {
            &&& (#[trigger] topology::mask_of(cluster, c)).disjoint(m)
            &&& topology::mask_of(cluster, c) == Set::<int>::empty() ==> topology::mask_of(
                sib,
                c,
            ).disjoint(m)
        }
}

/// What stands in a part stands in the whole.
proof fn lemma_stands_in(a: Seq<int>, b: Seq<int>, m: Set<int>, lo: int)
    ensures
        stands_at(a, m, lo) ==> stands_at(a + b, m, lo),
        stands_at(b, m, lo) ==> stands_at(a + b, m, a.len() + lo),
{
    let n = m.len();
    if stands_at(a, m, lo) {
        assert((a + b).subrange(lo, lo + n) =~= a.subrange(lo, lo + n));
    }
    if stands_at(b, m, lo) {
        assert((a + b).subrange(a.len() + lo, a.len() + lo + n) =~= b.subrange(lo, lo + n));
    }
}

/// A sibling set stands in an area's order.
proof fn lemma_atoms_stand(
    cs: Seq<int>,
    area: Set<int>,
    visited: Set<int>,
    sib: Seq<Set<int>>,
    m: Set<int>,
    k: int,
) -> (lo: int)
    requires
        area.finite(),
        forall|i: int| 0 <= i < cs.len() ==> area.contains(#[trigger] cs[i]),
        0 <= k < cs.len(),
        m.contains(cs[k]),
        m.subset_of(area),
        m.disjoint(visited),
        forall|c: int|
            m.contains(c) ==> (#[trigger] topology::mask_of(sib, c)).intersect(area) == m,
        forall|c: int|
            area.contains(c) && !m.contains(c) ==> (#[trigger] topology::mask_of(sib, c)).disjoint(
                m,
            ),
    ensures
        stands_at(atoms(cs, area, visited, sib), m, lo),
    decreases cs.len(),
{
    let rest = cs.drop_first();
    let c = cs[0];
    assert forall|i: int| 0 <= i < rest.len() implies area.contains(#[trigger] rest[i]) by {
        assert(rest[i] == cs[i + 1]);
    }
    if k > 0 {
        assert(rest[k - 1] == cs[k]);
    }
    if visited.contains(c) {
        lemma_atoms_stand(rest, area, visited, sib, m, k - 1)
    } else {
        let atom = atom_of(c, area, visited, sib);
        let a = ascending(atom);
        let b = atoms(rest, area, visited.union(atom), sib);
        let z = topology::mask_of(sib, c).intersect(area).difference(visited);
        if m.contains(c) {
            assert(z =~= m);
            assert(atom == m);
            lemma_set_subset_finite(area, m);
            lemma_ascending_of(m);
            assert(a.subrange(0, m.len() as int) =~= a);
            assert(stands_at(a, m, 0));
            lemma_stands_in(a, b, m, 0);
            0
        } else {
            assert(area.contains(c));
            assert(topology::mask_of(sib, c).disjoint(m));
            assert(atom.disjoint(m)) by {
                assert forall|x: int| atom.contains(x) implies !m.contains(x) by {
                    if z.contains(x) {
                        assert(topology::mask_of(sib, c).contains(x));
                    }
                }
            }
            assert(m.disjoint(visited.union(atom)));
            let lo = lemma_atoms_stand(rest, area, visited.union(atom), sib, m, k - 1);
            lemma_stands_in(a, b, m, lo);
            a.len() + lo
        }
    }
}

/// What CPU `c` pulls in holds a sibling set or none of it.
proof fn lemma_area_whole(
    c: int,
    node: Set<int>,
    visited: Set<int>,
    sib: Seq<Set<int>>,
    cluster: Seq<Set<int>>,
    m: Set<int>,
)
    requires
        node.contains(c),
        !visited.contains(c),
        sibling_set(m, node, sib, cluster),
        m.disjoint(visited),
    ensures
        m.contains(c) ==> m.subset_of(area_of(c, node, visited, sib, cluster)),
        m.subset_of(area_of(c, node, visited, sib, cluster)) || m.disjoint(
            area_of(c, node, visited, sib, cluster),
        ),
{
    let k = topology::mask_of(cluster, c);
    let s = topology::mask_of(sib, c);
    let mask = if k == Set::<int>::empty() {
        s
    } else {
        k
    };
    let z = mask.intersect(node).difference(visited);
    let area = area_of(c, node, visited, sib, cluster);
    let y = sets::lemma_some_member(m);
    if m.contains(c) {
        assert(m.subset_of(mask)) by {
            if k == Set::<int>::empty() {
                assert forall|x: int| m.contains(x) implies s.contains(x) by {
                    assert(s.intersect(node).contains(x));
                }
            }
        }
        assert(m.subset_of(z));
        assert(z.contains(y));
    } else if k != Set::<int>::empty() && m.subset_of(k) {
        assert(m.subset_of(z));
        assert(z.contains(y));
    } else {
        assert(mask.disjoint(m));
        assert forall|x: int| m.contains(x) implies !area.contains(x) by {
            if z.contains(x) {
                assert(mask.contains(x));
            }
        }
    }
}

/// A sibling set stands in a node's locality order.
proof fn lemma_siblings_stand(
    cs: Seq<int>,
    node: Set<int>,
    visited: Set<int>,
    sib: Seq<Set<int>>,
    cluster: Seq<Set<int>>,
    m: Set<int>,
    k: int,
) -> (lo: int)
    requires
        node.finite(),
        forall|i: int| 0 <= i < cs.len() ==> node.contains(#[trigger] cs[i]),
        0 <= k < cs.len(),
        m.contains(cs[k]),
        sibling_set(m, node, sib, cluster),
        m.disjoint(visited),
    ensures
        stands_at(locality(cs, node, visited, sib, cluster), m, lo),
    decreases cs.len(),
{
    let rest = cs.drop_first();
    let c = cs[0];
    assert forall|i: int| 0 <= i < rest.len() implies node.contains(#[trigger] rest[i]) by {
        assert(rest[i] == cs[i + 1]);
    }
    if k > 0 {
        assert(rest[k - 1] == cs[k]);
    }
    if visited.contains(c) {
        lemma_siblings_stand(rest, node, visited, sib, cluster, m, k - 1)
    } else {
        assert(node.contains(c));
        let area = area_of(c, node, visited, sib, cluster);
        assert(area.subset_of(node));
        lemma_set_subset_finite(node, area);
        lemma_ascending_of(area);
        let members = ascending(area);
        assert forall|i: int| 0 <= i < members.len() implies area.contains(
            #[trigger] members[i],
        ) by {
            assert(members.to_set().contains(members[i]));
        }
        let run = atoms(members, area, visited, sib);
        let seen = visited.union(run.to_set());
        let tail = locality(rest, node, seen, sib, cluster);
        lemma_area_whole(c, node, visited, sib, cluster, m);
        lemma_atoms(members, area, visited, sib);
        if m.subset_of(area) {
            let y = sets::lemma_some_member(m);
            assert(members.to_set().contains(y));
            let i = choose|i: int| 0 <= i < members.len() && members[i] == y;
            assert forall|x: int| m.contains(x) implies (#[trigger] topology::mask_of(
                sib,
                x,
            )).intersect(area) == m by {
                assert(topology::mask_of(sib, x).intersect(node) == m);
                assert(topology::mask_of(sib, x).intersect(area) =~= m) by {
                    assert forall|w: int| m.contains(w) implies topology::mask_of(sib, x).contains(
                        w,
                    ) by {
                        assert(topology::mask_of(sib, x).intersect(node).contains(w));
                    }
                    assert forall|w: int|
                        topology::mask_of(sib, x).contains(w) && area.contains(
                            w,
                        ) implies m.contains(w) by {
                        assert(topology::mask_of(sib, x).intersect(node).contains(w));
                    }
                }
            }
            let lo = lemma_atoms_stand(members, area, visited, sib, m, i);
            lemma_stands_in(run, tail, m, lo);
            lo
        } else {
            assert(m.disjoint(seen)) by {
                assert forall|x: int| m.contains(x) implies !seen.contains(x) by {
                    if run.to_set().contains(x) {
                        assert(run.contains(x));
                        assert(area.contains(x));
                    }
                }
            }
            let lo = lemma_siblings_stand(rest, node, seen, sib, cluster, m, k - 1);
            lemma_stands_in(run, tail, m, lo);
            run.len() + lo
        }
    }
}

/// A cluster stands in a node's locality order.
proof fn lemma_cluster_stands(
    cs: Seq<int>,
    node: Set<int>,
    visited: Set<int>,
    sib: Seq<Set<int>>,
    cluster: Seq<Set<int>>,
    m: Set<int>,
    k: int,
) -> (lo: int)
    requires
        node.finite(),
        masks_hold_self(sib),
        forall|i: int| 0 <= i < cs.len() ==> node.contains(#[trigger] cs[i]),
        0 <= k < cs.len(),
        m.contains(cs[k]),
        cluster_set(m, node, sib, cluster),
        m.disjoint(visited),
    ensures
        stands_at(locality(cs, node, visited, sib, cluster), m, lo),
    decreases cs.len(),
{
    let rest = cs.drop_first();
    let c = cs[0];
    assert forall|i: int| 0 <= i < rest.len() implies node.contains(#[trigger] rest[i]) by {
        assert(rest[i] == cs[i + 1]);
    }
    if k > 0 {
        assert(rest[k - 1] == cs[k]);
    }
    if visited.contains(c) {
        lemma_cluster_stands(rest, node, visited, sib, cluster, m, k - 1)
    } else {
        assert(node.contains(c));
        let area = area_of(c, node, visited, sib, cluster);
        assert(area.subset_of(node));
        lemma_set_subset_finite(node, area);
        lemma_ascending_of(area);
        let members = ascending(area);
        assert forall|i: int| 0 <= i < members.len() implies area.contains(
            #[trigger] members[i],
        ) by {
            assert(members.to_set().contains(members[i]));
        }
        let run = atoms(members, area, visited, sib);
        let seen = visited.union(run.to_set());
        let tail = locality(rest, node, seen, sib, cluster);
        lemma_atoms(members, area, visited, sib);
        let mask = topology::mask_of(cluster, c);
        if m.contains(c) {
            assert(mask.intersect(node).contains(c));
            assert(mask != Set::<int>::empty());
            assert(mask.intersect(node).difference(visited) =~= m);
            assert(area == m);
            assert(run.to_set() =~= m) by {
                assert forall|x: int| m.contains(x) implies run.to_set().contains(x) by {
                    assert(members.to_set().contains(x));
                    lemma_atoms_all(members, area, visited, sib, x);
                }
                assert forall|x: int| run.to_set().contains(x) implies m.contains(x) by {
                    assert(run.contains(x));
                }
            }
            lemma_distinct_len(run);
            assert(run.subrange(0, m.len() as int) =~= run);
            assert(stands_at(run, m, 0));
            lemma_stands_in(run, tail, m, 0);
            0
        } else {
            assert(m.disjoint(seen)) by {
                assert forall|x: int| m.contains(x) implies !seen.contains(x) by {
                    if run.to_set().contains(x) {
                        assert(run.contains(x));
                        assert(area.contains(x));
                        assert(x != c);
                        assert(mask.disjoint(m));
                    }
                }
            }
            let lo = lemma_cluster_stands(rest, node, seen, sib, cluster, m, k - 1);
            lemma_stands_in(run, tail, m, lo);
            run.len() + lo
        }
    }
}

/// A list of present CPUs has no absent ones to drop.
proof fn lemma_all_present(o: Seq<int>, present: Set<int>)
    requires
        forall|i: int| 0 <= i < o.len() ==> present.contains(#[trigger] o[i]),
    ensures
        present_of(o, present) == o,
    decreases o.len(),
{
    reveal(Seq::filter);
    if o.len() > 0 {
        let init = o.drop_last();
        assert forall|i: int| 0 <= i < init.len() implies present.contains(#[trigger] init[i]) by {
            assert(init[i] == o[i]);
        }
        lemma_all_present(init, present);
        assert(present.contains(o[o.len() - 1]));
        assert(init.push(o.last()) =~= o);
    } else {
        assert(present_of(o, present) =~= o);
    }
}

/// A set of present CPUs stands in the list of the present ones too.
proof fn lemma_present_stand(o: Seq<int>, present: Set<int>, m: Set<int>, lo: int) -> (r: int)
    requires
        stands_at(o, m, lo),
        m.subset_of(present),
    ensures
        stands_at(present_of(o, present), m, r),
{
    let hi = lo + m.len();
    let a = o.subrange(0, lo);
    let b = o.subrange(lo, hi);
    let c = o.subrange(hi, o.len() as int);
    let f = |x: int| present.contains(x);
    assert(o =~= a + (b + c));
    Seq::filter_distributes_over_add(a, b + c, f);
    Seq::filter_distributes_over_add(b, c, f);
    assert forall|i: int| 0 <= i < b.len() implies present.contains(#[trigger] b[i]) by {
        assert(b.to_set().contains(b[i]));
    }
    lemma_all_present(b, present);
    assert(b.subrange(0, m.len() as int) =~= b);
    assert(stands_at(b, m, 0));
    lemma_stands_in(b, c.filter(f), m, 0);
    lemma_stands_in(a.filter(f), b + c.filter(f), m, 0);
    a.filter(f).len() as int
}

/// What stands among a node's present CPUs between two quota boundaries is
/// packed into one group.
proof fn lemma_packed_keeps(
    node: Set<int>,
    seats: nat,
    present: Set<int>,
    sib: Seq<Set<int>>,
    cluster: Seq<Set<int>>,
    m: Set<int>,
    lo: int,
    j: int,
)
    requires
        node.finite(),
        0 <= j < seats,
        stands_at(present_of(node_order(node, sib, cluster), present), m, lo),
        offset(present_of(node_order(node, sib, cluster), present).len(), seats, j) <= lo,
        lo + m.len() <= offset(
            present_of(node_order(node, sib, cluster), present).len(),
            seats,
            j + 1,
        ),
    ensures
        packed(node, seats, present, sib, cluster).len() == seats,
        m.subset_of(packed(node, seats, present, sib, cluster)[j]),
{
    let o = node_order(node, sib, cluster);
    let p = present_of(o, present);
    let a = absent_of(o, present);
    let ch = chunks(p, seats);
    lemma_node_order(node, sib, cluster);
    lemma_split_list(o, present);
    lemma_chunks(p, seats);
    lemma_chunks_fit(p, o.len(), seats);
    lemma_topped_up(ch, p.to_set(), a, o.len(), sib);
    lemma_offset(p.len(), seats, j);
    let first = offset(p.len(), seats, j);
    let part = p.subrange(first, offset(p.len(), seats, j + 1));
    let own = p.subrange(lo, lo + m.len());
    assert forall|x: int| m.contains(x) implies ch[j].contains(x) by {
        assert(own.to_set().contains(x));
        let i = choose|i: int| 0 <= i < own.len() && own[i] == x;
        assert(part[lo - first + i] == x);
    }
    assert(ch[j].subset_of(topped_up(ch, a, o.len(), sib)[j]));
}

/// SMT siblings, and clusters, land in the same group whenever the group sizes
/// allow: a sibling set or a cluster of node `i` whose CPUs are all present is a
/// run in the order in which the node's present CPUs are dealt out, and where no
/// boundary between two of the node's groups falls inside that run, one group
/// holds the whole set.
#[verifier::spinoff_prover]
pub proof fn lemma_spread_keeps_together(
    n: nat,
    possible: Set<int>,
    present: Set<int>,
    nodes: Seq<Set<int>>,
    sib: Seq<Set<int>>,
    cluster: Seq<Set<int>>,
    i: int,
    m: Set<int>,
) -> (lo: int)
    requires
        possible.finite(),
        possible.len() <= usize::MAX,
        nodes.len() <= usize::MAX,
        areas(possible, nodes).len() <= n,
        0 <= i < areas(possible, nodes).len(),
        sibling_set(m, areas(possible, nodes)[i], sib, cluster) || (masks_hold_self(sib)
            && cluster_set(m, areas(possible, nodes)[i], sib, cluster)),
        m.subset_of(present),
    ensures
        ({
            let p = present_of(node_order(areas(possible, nodes)[i], sib, cluster), present);
            let first = run_start(n, possible, present, nodes, i);
            let seats = (run_start(n, possible, present, nodes, i + 1) - first) as nat;
            &&& stands_at(p, m, lo)
            &&& forall|j: int|
                0 <= j < seats && #[trigger] offset(p.len(), seats, j) <= lo && lo + m.len()
                    <= offset(p.len(), seats, j + 1) ==> m.subset_of(
                    spread(n, possible, present, nodes, sib, cluster)[first + j],
                )
        }),
{
    let a = areas(possible, nodes);
    let w = area_weights(a, present);
    let s = apportioned(n, w);
    nodes.lemma_filter_len(|m: Set<int>| !possible.disjoint(m));
    lemma_area_sizes(possible, nodes);
    lemma_area_weights(possible, present, nodes);
    lemma_apportioned(n, w);
    lemma_packed_all(a, s, present, sib, cluster);
    let all = packed_all(a, s, present, sib, cluster);
    assert(s.take(i + 1).drop_last() =~= s.take(i));
    assert(s.take(i + 1).last() == s[i]);
    let first = sets::total(s.take(i)) as int;
    let seats = s[i];
    let node = a[i];
    assert(1 <= seats);
    assert(node.finite());
    let part = packed(node, seats, present, sib, cluster);
    assert(all.subrange(first, first + seats) == part);
    let o = node_order(node, sib, cluster);
    let lo = lemma_order_keeps(node, sib, cluster, m);
    let r = lemma_present_stand(o, present, m, lo);
    let p = present_of(o, present);
    assert forall|j: int|
        0 <= j < seats && #[trigger] offset(p.len(), seats, j) <= r && r + m.len() <= offset(
            p.len(),
            seats,
            j + 1,
        ) implies m.subset_of(all[first + j]) by {
        lemma_packed_keeps(node, seats, present, sib, cluster, m, r, j);
        assert(all[first + j] == part[j]);
    }
    r
}

/// In a node's locality order every sibling set and every cluster of the node
/// is one run.
pub proof fn lemma_order_keeps(
    node: Set<int>,
    sib: Seq<Set<int>>,
    cluster: Seq<Set<int>>,
    m: Set<int>,
) -> (lo: int)
    requires
        node.finite(),
        sibling_set(m, node, sib, cluster) || (masks_hold_self(sib) && cluster_set(
            m,
            node,
            sib,
            cluster,
        )),
    ensures
        stands_at(node_order(node, sib, cluster), m, lo),
{
    let cs = ascending(node);
    lemma_ascending_of(node);
    assert forall|i: int| 0 <= i < cs.len() implies node.contains(#[trigger] cs[i]) by {
        assert(cs.to_set().contains(cs[i]));
    }
    let y = sets::lemma_some_member(m);
    assert(cs.to_set().contains(y));
    let k = choose|k: int| 0 <= k < cs.len() && cs[k] == y;
    if sibling_set(m, node, sib, cluster) {
        lemma_siblings_stand(cs, node, Set::empty(), sib, cluster, m, k)
    } else {
        lemma_cluster_stands(cs, node, Set::empty(), sib, cluster, m, k)
    }
}

// ---------------------------------------------------------------------------
// In order, in proportion, in balance
// ---------------------------------------------------------------------------

/// The members of a set in ascending order ascend.
pub proof fn lemma_ascends(s: Set<int>, i: int, j: int)
    requires
        s.finite(),
        0 <= i < j < ascending(s).len(),
    ensures
        ascending(s)[i] < ascending(s)[j],
    decreases s.len(),
{
    if s != Set::<int>::empty() {
        sets::lemma_least(s);
        let c = sets::least(s);
        let t = s.remove(c);
        let rest = ascending(t);
        assert(ascending(s) =~= seq![c] + rest);
        lemma_ascending_of(t);
        if i > 0 {
            lemma_ascends(t, i - 1, j - 1);
        } else {
            assert(rest.to_set().contains(rest[j - 1]));
            assert(t.contains(rest[j - 1]));
            assert(s.contains(rest[j - 1]));
        }
    }
}

/// Each weight gets one seat and, of the seats beyond those, its proportion to
/// within one.
pub proof fn lemma_apportioned_share(seats: nat, w: Seq<nat>, i: int)
    requires
        0 < w.len() <= seats,
        0 < sets::total(w),
        0 <= i < w.len(),
    ensures
        ({
            let tot = sets::total(w);
            let given = (apportioned(seats, w)[i] - 1) * tot;
            let due = (seats - w.len()) * w[i];
            due - tot < given <= due + tot
        }),
{
    let spare = (seats - w.len()) as nat;
    let tot = sets::total(w) as int;
    let due = (spare * w[i]) as int;
    let q = due / tot;
    vstd::arithmetic::div_mod::lemma_fundamental_div_mod(due, tot);
    assert(tot * q == q * tot) by (nonlinear_arith);
    assert((q + 1) * tot == q * tot + tot) by (nonlinear_arith);
    let s = apportioned(seats, w)[i];
    assert(s == 1 + q || s == 2 + q);
    assert((seats - w.len()) * w[i] == due) by (nonlinear_arith)
        requires
            due == spare * w[i],
            spare == seats - w.len(),
    ;
}

/// A heavier node gets no fewer seats than a lighter one, and of two that weigh
/// the same the first gets no fewer than the second.
pub proof fn lemma_apportioned_fair(seats: nat, w: Seq<nat>, i: int, j: int)
    requires
        0 < w.len() <= seats,
        w.len() <= usize::MAX,
        0 < sets::total(w) <= u128::MAX,
        0 <= i < w.len(),
        0 <= j < w.len(),
        w[i] > w[j] || (w[i] == w[j] && i < j),
    ensures
        apportioned(seats, w)[i] >= apportioned(seats, w)[j],
{
    let spare = (seats - w.len()) as nat;
    let tot = sets::total(w);
    let e = earned(w, spare, tot);
    let l = leftover(w, spare, tot);
    let entries = group::entries(l);
    let r = order::ranked(entries, true);
    let k = spare - sets::total(e);
    lemma_seats_left(w, spare);
    let a = (spare * w[i]) as int;
    let b = (spare * w[j]) as int;
    let t = tot as int;
    assert(b <= a) by (nonlinear_arith)
        requires
            a == spare * w[i],
            b == spare * w[j],
            w[j] <= w[i],
    ;
    vstd::arithmetic::div_mod::lemma_fundamental_div_mod(a, t);
    vstd::arithmetic::div_mod::lemma_fundamental_div_mod(b, t);
    vstd::arithmetic::div_mod::lemma_div_is_ordered(b, a, t);
    if e[i] == e[j] && among_first(r, k, j) && !among_first(r, k, i) {
        assert(l[i] >= l[j]);
        if w[i] > w[j] && l[i] == l[j] {
            assert(a == b);
            assert(spare == 0) by (nonlinear_arith)
                requires
                    spare * w[i] == spare * w[j],
                    w[i] > w[j],
            ;
            assert(k == 0) by {
                assert(sets::total(e) >= 0);
            }
            assert(false);
        }
        let p = choose|p: int| 0 <= p < k && (#[trigger] r[p]).1 == j;
        assert(entries[i] == (l[i] as u128, i as usize));
        assert(entries.contains(entries[i]));
        order::lemma_ranked(entries, true);
        assert(r.contains(entries[i]));
        let q = choose|q: int| 0 <= q < r.len() && r[q] == entries[i];
        assert(q >= k);
        assert(r.contains(r[p]));
        assert(entries.contains(r[p]));
        let x = choose|x: int| 0 <= x < entries.len() && entries[x] == r[p];
        assert(entries[x] == (l[x] as u128, x as usize));
        assert(x == j);
        order::lemma_rank_order(entries, p, q);
        assert(l[i] < tot && l[j] < tot);
    }
}

/// Nodes that are put whole into fewer groups leave no group heavier than another
/// by more than the heaviest node.
pub proof fn lemma_piled_balanced(
    n: nat,
    nodes: Seq<Set<int>>,
    e: Seq<(u128, usize)>,
    top: nat,
    g: int,
    h: int,
)
    requires
        0 < n,
        0 <= g < n,
        0 <= h < n,
        forall|p: int| 0 <= p < e.len() ==> (#[trigger] e[p]).0 <= top,
    ensures
        piled(n, nodes, e).1.len() == n,
        piled(n, nodes, e).1[g] <= piled(n, nodes, e).1[h] + top,
        sets::total(piled(n, nodes, e).1) == sets::total(group::entry_weights(e)),
    decreases e.len(),
{
    let w = group::entry_weights(e);
    if e.len() == 0 {
        lemma_total_zero(n);
        assert(w =~= seq![]);
    } else {
        let f = e.drop_last();
        assert forall|p: int| 0 <= p < f.len() implies (#[trigger] f[p]).0 <= top by {
            assert(f[p] == e[p]);
        }
        let loads = piled(n, nodes, f).1;
        lemma_piled_balanced(n, nodes, f, top, g, h);
        lemma_some_lightest(loads);
        let at = lightest(loads);
        assert(e[e.len() - 1].0 <= top);
        if g == at {
            assert(loads[at] <= loads[h]);
        }
        lemma_total_update(loads, at, loads[at] + e.last().0 as nat);
        assert(w.drop_last() =~= group::entry_weights(f));
    }
}

proof fn lemma_total_zero(n: nat)
    ensures
        sets::total(Seq::new(n, |i: int| 0nat)) == 0,
    decreases n,
{
    if n > 0 {
        lemma_total_zero((n - 1) as nat);
        assert(Seq::new(n, |i: int| 0nat).drop_last() =~= Seq::new((n - 1) as nat, |i: int| 0nat));
    }
}

} // verus!
