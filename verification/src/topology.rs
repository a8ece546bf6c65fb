//! CPU topology snapshot: the masks the grouping and the spreading consume,
//! and how the pieces read from sysfs become one.

use vstd::prelude::*;

use crate::cpuset;
use crate::cpuset::{CpuListError, CpuSet};
use crate::text;

verus! {

/// CPU topology snapshot.
///
/// Normally assembled from what sysfs says ([`CpuTopology::from_sysfs`]); tests
/// construct synthetic instances directly.
#[derive(Debug)]
pub struct CpuTopology {
    /// `possible.last() + 1` — exclusive upper bound on CPU ids.
    pub nr_cpu_ids: usize,
    /// Possible CPUs (`cpu/possible`).
    pub possible: CpuSet,
    /// Present CPUs (`cpu/present`).
    pub present: CpuSet,
    /// Online CPUs (`cpu/online`) — not used by the grouping itself, but
    /// needed to select a pinnable CPU out of a group.
    pub online: CpuSet,
    /// CPUs of each NUMA node, indexed by node id (`node/nodeN/cpulist`).
    /// Possible CPUs not claimed by any node are folded into node 0.
    pub node_to_cpus: Vec<CpuSet>,
    /// SMT siblings of each CPU, indexed by CPU id
    /// (`cpuN/topology/core_cpus_list`).
    pub sibling: Vec<CpuSet>,
    /// Cluster mask of each CPU, indexed by CPU id
    /// (`cpuN/topology/cluster_cpus_list`).
    pub cluster: Vec<CpuSet>,
}

/// The sets behind a list of masks.
pub open spec fn masks(v: Seq<CpuSet>) -> Seq<Set<int>> {
    v.map_values(|s: CpuSet| s@)
}

/// The mask of CPU `c`, empty where the list does not reach it.
pub open spec fn mask_of(m: Seq<Set<int>>, c: int) -> Set<int> {
    if 0 <= c < m.len() {
        m[c]
    } else {
        Set::empty()
    }
}

/// Whether a CPU's cluster mask, where it has one, holds the CPU itself, and
/// no two cluster masks overlap without being the same.
pub open spec fn clusters_agree(cluster: Seq<Set<int>>, possible: Set<int>) -> bool {
    &&& forall|c: int| #[trigger]
        possible.contains(c) && mask_of(cluster, c) != Set::<int>::empty() ==> mask_of(
            cluster,
            c,
        ).contains(c)
    &&& forall|c: int, d: int| #[trigger]
        possible.contains(c) && #[trigger] possible.contains(d) ==> mask_of(cluster, c) == mask_of(
            cluster,
            d,
        ) || mask_of(cluster, c).disjoint(mask_of(cluster, d))
}

/// The last mask `entries` gives to index `i`, empty where they give none.
pub open spec fn placed(entries: Seq<(usize, CpuSet)>, i: int) -> Set<int>
    decreases entries.len(),
{
    if entries.len() == 0 {
        Set::empty()
    } else if entries.last().0 == i {
        entries.last().1@
    } else {
        placed(entries.drop_last(), i)
    }
}

/// One past the highest index among `entries`.
pub open spec fn extent(entries: Seq<(usize, CpuSet)>) -> int
    decreases entries.len(),
{
    if entries.len() == 0 {
        0
    } else if entries.last().0 >= extent(entries.drop_last()) {
        entries.last().0 + 1
    } else {
        extent(entries.drop_last())
    }
}

/// What the masks of `entries` claim together.
pub open spec fn claimed(entries: Seq<(usize, CpuSet)>) -> Set<int> {
    Set::new(|c: int| exists|i: int| 0 <= i && #[trigger] placed(entries, i).contains(c))
}

proof fn lemma_placed_past_extent(entries: Seq<(usize, CpuSet)>, i: int)
    requires
        extent(entries) <= i,
    ensures
        placed(entries, i) == Set::<int>::empty(),
        0 <= extent(entries),
    decreases entries.len(),
{
    if entries.len() > 0 {
        lemma_placed_past_extent(entries.drop_last(), i);
    }
}

/// A list of `len` masks with `entries` put at their indices, later entries
/// over earlier ones. Entries past the end are ignored.
fn place(len: usize, entries: &Vec<(usize, CpuSet)>) -> (r: Vec<CpuSet>)
    ensures
        r@.len() == len,
        forall|i: int| 0 <= i < len ==> (#[trigger] r@[i])@ == placed(entries@, i),
{
    let mut r: Vec<CpuSet> = Vec::new();
    for i in 0..len
        invariant
            r@.len() == i,
            forall|j: int| 0 <= j < i ==> (#[trigger] r@[j])@ == Set::<int>::empty(),
    {
        r.push(CpuSet::new());
    }
    let n: usize = entries.len();
    assert(entries@.take(0) =~= seq![]);
    for k in 0..n
        invariant
            n == entries@.len(),
            r@.len() == len,
            forall|i: int| 0 <= i < len ==> (#[trigger] r@[i])@ == placed(entries@.take(k as int), i),
    {
        let e = &entries[k];
        let at: usize = e.0;
        assert(entries@.take(k as int + 1).drop_last() =~= entries@.take(k as int));
        if at < len {
            r[at] = e.1.clone();
        }
    }
    assert(entries@.take(n as int) =~= entries@);
    r
}

/// Whether `t` is the topology its pieces make: the masks as they are, every
/// node's mask by its id, possible CPUs no node claims folded into node 0, and
/// each possible CPU's sibling and cluster masks by CPU id.
pub open spec fn built(
    t: CpuTopology,
    possible: Set<int>,
    present: Set<int>,
    online: Set<int>,
    nodes: Seq<(usize, CpuSet)>,
    siblings: Seq<(usize, CpuSet)>,
    clusters: Seq<(usize, CpuSet)>,
) -> bool {
    &&& t.possible@ == possible
    &&& t.present@ == present
    &&& t.online@ == online
    &&& forall|c: int| #[trigger] possible.contains(c) ==> c < t.nr_cpu_ids
    &&& t.nr_cpu_ids > 0 ==> possible.contains(t.nr_cpu_ids - 1)
    &&& t.node_to_cpus@.len() == if nodes.len() == 0 {
        1
    } else {
        extent(nodes)
    }
    &&& t.node_to_cpus@[0]@ == placed(nodes, 0).union(possible.difference(claimed(nodes)))
    &&& forall|i: int|
        0 < i < t.node_to_cpus@.len() ==> (#[trigger] t.node_to_cpus@[i])@ == placed(nodes, i)
    &&& t.sibling@.len() == t.nr_cpu_ids
    &&& forall|c: int| 0 <= c < t.nr_cpu_ids ==> (#[trigger] t.sibling@[c])@ == placed(siblings, c)
    &&& t.cluster@.len() == t.nr_cpu_ids
    &&& forall|c: int| 0 <= c < t.nr_cpu_ids ==> (#[trigger] t.cluster@[c])@ == placed(clusters, c)
    &&& forall|c: int| #[trigger] possible.contains(c) ==> in_some_node(t.node_to_cpus@, c)
}

/// What the files of a sysfs tree say: the three CPU masks, the entries of the
/// node directory with their cpulists, and each possible CPU's lists. A file
/// that is not there is `None`.
#[derive(Debug)]
pub struct SysfsTree {
    /// `devices/system/cpu/possible`.
    pub possible: String,
    /// `devices/system/cpu/present`.
    pub present: String,
    /// `devices/system/cpu/online`.
    pub online: String,
    /// `devices/system/node/*`, each with its `cpulist`.
    pub nodes: Vec<(String, Option<String>)>,
    /// `devices/system/cpu/cpuN/topology/core_cpus_list`.
    pub siblings: Vec<(usize, Option<String>)>,
    /// `devices/system/cpu/cpuN/topology/cluster_cpus_list`.
    pub clusters: Vec<(usize, Option<String>)>,
}

/// The set a list file means: a missing one is the empty set — not-present CPUs
/// have no directory and offline CPUs may lack their topology.
pub open spec fn file_meaning(t: Option<String>) -> Result<Set<int>, Seq<char>> {
    match t {
        Some(s) => cpuset::cpulist_meaning(s@),
        None => Ok(Set::empty()),
    }
}

/// The id a node directory is named after.
pub open spec fn named_node(name: Seq<char>) -> Option<usize> {
    if text::has_prefix(name, seq!['n', 'o', 'd', 'e']) {
        match text::number_of(name.skip(4), usize::MAX as nat) {
            Some(n) => Some(n as usize),
            None => None,
        }
    } else {
        None
    }
}

/// The first `k` entries of a node directory that are nodes.
pub open spec fn node_files(v: Seq<(String, Option<String>)>, k: nat) -> Seq<
    (usize, Option<String>),
>
    decreases k,
{
    if k == 0 {
        seq![]
    } else {
        let rest = node_files(v, (k - 1) as nat);
        match named_node(v[k - 1].0@) {
            Some(id) => rest.push((id, v[k - 1].1)),
            None => rest,
        }
    }
}

/// Whether `sets` are what `files` say, one for one.
pub open spec fn read_as(sets: Seq<(usize, CpuSet)>, files: Seq<(usize, Option<String>)>) -> bool {
    &&& sets.len() == files.len()
    &&& forall|i: int|
        0 <= i < files.len() ==> (#[trigger] sets[i]).0 == files[i].0 && file_meaning(files[i].1)
            == Ok::<Set<int>, Seq<char>>(sets[i].1@)
}

/// Whether some file of `files` is malformed, in this part.
pub open spec fn some_fault(files: Seq<(usize, Option<String>)>, part: Seq<char>) -> bool {
    exists|i: int|
        0 <= i < files.len() && file_meaning((#[trigger] files[i]).1) == Err::<Set<int>, Seq<char>>(
            part,
        )
}

/// Whether `t` is what the well-formed files of a tree make.
pub open spec fn read_from(t: CpuTopology, tree: SysfsTree) -> bool {
    exists|
        nodes: Seq<(usize, CpuSet)>,
        siblings: Seq<(usize, CpuSet)>,
        clusters: Seq<(usize, CpuSet)>,
    |
        {
            &&& read_as(nodes, node_files(tree.nodes@, tree.nodes@.len()))
            &&& read_as(siblings, tree.siblings@)
            &&& read_as(clusters, tree.clusters@)
            &&& #[trigger] built(
                t,
                cpuset::cpulist_meaning(tree.possible@)->Ok_0,
                cpuset::cpulist_meaning(tree.present@)->Ok_0,
                cpuset::cpulist_meaning(tree.online@)->Ok_0,
                nodes,
                siblings,
                clusters,
            )
        }
}

/// Whether two lists of files say the same of the same ids.
spec fn same_files(a: Seq<(usize, Option<String>)>, b: Seq<(usize, Option<String>)>) -> bool {
    &&& a.len() == b.len()
    &&& forall|k: int|
        0 <= k < b.len() ==> (#[trigger] a[k]).0 == b[k].0 && file_meaning(a[k].1) == file_meaning(
            b[k].1,
        )
}

/// Read list files, one for one.
fn read_all(files: &Vec<(usize, Option<String>)>) -> (r: Result<Vec<(usize, CpuSet)>, CpuListError>)
    ensures
        match r {
            Ok(v) => read_as(v@, files@),
            Err(e) => some_fault(files@, e.part@),
        },
{
    let mut v: Vec<(usize, CpuSet)> = Vec::new();
    let n: usize = files.len();
    for i in 0..n
        invariant
            n == files@.len(),
            read_as(v@, files@.take(i as int)),
    {
        let set = match &files[i].1 {
            Some(s) => match CpuSet::from_cpulist(s.as_str()) {
                Ok(set) => set,
                Err(e) => {
                    assert(file_meaning(files@[i as int].1) == Err::<Set<int>, Seq<char>>(e.part@));
                    return Err(e);
                },
            },
            None => {
                let set = CpuSet::new();
                assert(set@ =~= Set::empty());
                set
            },
        };
        let ghost before = v@;
        v.push((files[i].0, set));
        assert(read_as(v@, files@.take(i + 1))) by {
            assert forall|j: int| 0 <= j < i + 1 implies (#[trigger] v@[j]).0 == files@.take(
                i + 1,
            )[j].0 && file_meaning(files@.take(i + 1)[j].1) == Ok::<Set<int>, Seq<char>>(
                v@[j].1@,
            ) by {
                if j < i {
                    assert(before[j] == v@[j]);
                    assert(files@.take(i as int)[j] == files@[j]);
                }
            }
        }
    }
    assert(files@.take(n as int) =~= files@);
    Ok(v)
}

impl CpuTopology {
    /// The node id a sysfs node directory is named after (`node3` is 3).
    pub fn node_id(name: &str) -> (r: Option<usize>)
        ensures
            r == named_node(name@),
    {
        let cs = text::chars_of(name);
        let n: usize = cs.len();
        let node: Vec<char> = vec!['n', 'o', 'd', 'e'];
        assert(node@ =~= seq!['n', 'o', 'd', 'e']);
        if !text::starts_with(cs.as_slice(), node.as_slice()) {
            return None;
        }
        text::parse_usize(vstd::slice::slice_subrange(cs.as_slice(), 4, n))
    }

    /// Read a topology out of what the files of a sysfs tree say. A malformed
    /// list is an error.
    pub fn from_sysfs(tree: &SysfsTree) -> (r: Result<CpuTopology, CpuListError>)
        requires
            cpuset::cpulist_meaning(tree.possible@) matches Ok(s) ==> !s.contains(
                usize::MAX as int,
            ),
            forall|i: int|
                0 <= i < tree.nodes@.len() ==> named_node((#[trigger] tree.nodes@[i]).0@) != Some(
                    usize::MAX,
                ),
        ensures
            ({
                let possible = cpuset::cpulist_meaning(tree.possible@);
                let present = cpuset::cpulist_meaning(tree.present@);
                let online = cpuset::cpulist_meaning(tree.online@);
                let files = node_files(tree.nodes@, tree.nodes@.len());
                match r {
                    Ok(t) => {
                        &&& possible is Ok && present is Ok && online is Ok
                        &&& read_from(t, *tree)
                    },
                    Err(e) => if possible is Err {
                        possible == Err::<Set<int>, Seq<char>>(e.part@)
                    } else if present is Err {
                        present == Err::<Set<int>, Seq<char>>(e.part@)
                    } else if online is Err {
                        online == Err::<Set<int>, Seq<char>>(e.part@)
                    } else {
                        ||| some_fault(files, e.part@)
                        ||| some_fault(tree.siblings@, e.part@)
                        ||| some_fault(tree.clusters@, e.part@)
                    },
                }
            }),
    {
        let possible = match CpuSet::from_cpulist(tree.possible.as_str()) {
            Ok(s) => s,
            Err(e) => {
                return Err(e);
            },
        };
        let present = match CpuSet::from_cpulist(tree.present.as_str()) {
            Ok(s) => s,
            Err(e) => {
                return Err(e);
            },
        };
        let online = match CpuSet::from_cpulist(tree.online.as_str()) {
            Ok(s) => s,
            Err(e) => {
                return Err(e);
            },
        };
        let mut files: Vec<(usize, Option<String>)> = Vec::new();
        let n: usize = tree.nodes.len();
        for i in 0..n
            invariant
                n == tree.nodes@.len(),
                forall|k: int|
                    0 <= k < tree.nodes@.len() ==> named_node((#[trigger] tree.nodes@[k]).0@)
                        != Some(usize::MAX),
                same_files(files@, node_files(tree.nodes@, i as nat)),
                forall|k: int| 0 <= k < files@.len() ==> (#[trigger] files@[k]).0 < usize::MAX,
        {
            match CpuTopology::node_id(tree.nodes[i].0.as_str()) {
                Some(id) => {
                    let list = match &tree.nodes[i].1 {
                        Some(s) => Some(text::owned(s.as_str())),
                        None => None,
                    };
                    let ghost before = files@;
                    files.push((id, list));
                    proof {
                        let want = node_files(tree.nodes@, (i + 1) as nat);
                        assert forall|k: int| 0 <= k < want.len() implies (#[trigger] files@[k]).0
                            == want[k].0 && file_meaning(files@[k].1) == file_meaning(
                            want[k].1,
                        ) by {
                            if k < before.len() {
                                assert(files@[k] == before[k]);
                            }
                        }
                        assert forall|k: int| 0 <= k < files@.len() implies (
                        #[trigger] files@[k]).0 < usize::MAX by {
                            if k < before.len() {
                                assert(files@[k] == before[k]);
                            }
                        }
                    }
                },
                None => {},
            }
        }
        let ghost want = node_files(tree.nodes@, tree.nodes@.len());
        let nodes = match read_all(&files) {
            Ok(v) => v,
            Err(e) => {
                proof {
                    let i = choose|i: int|
                        0 <= i < files@.len() && file_meaning((#[trigger] files@[i]).1) == Err::<
                            Set<int>,
                            Seq<char>,
                        >(e.part@);
                    assert(file_meaning(want[i].1) == file_meaning(files@[i].1));
                    assert(some_fault(want, e.part@));
                }
                return Err(e);
            },
        };
        let siblings = match read_all(&tree.siblings) {
            Ok(v) => v,
            Err(e) => {
                return Err(e);
            },
        };
        let clusters = match read_all(&tree.clusters) {
            Ok(v) => v,
            Err(e) => {
                return Err(e);
            },
        };
        proof {
            assert forall|i: int| 0 <= i < want.len() implies (#[trigger] nodes@[i]).0 == want[i].0
                && file_meaning(want[i].1) == Ok::<Set<int>, Seq<char>>(nodes@[i].1@) by {
                assert(files@[i].0 == want[i].0);
            }
            assert(read_as(nodes@, want));
            assert forall|i: int| 0 <= i < nodes@.len() implies (#[trigger] nodes@[i]).0
                < usize::MAX by {
                assert(files@[i].0 < usize::MAX);
            }
        }
        let ghost sets = (possible@, present@, online@);
        let t = CpuTopology::assemble(possible, present, online, &nodes, &siblings, &clusters);
        proof {
            assert(cpuset::cpulist_meaning(tree.possible@) == Ok::<Set<int>, Seq<char>>(sets.0));
            assert(cpuset::cpulist_meaning(tree.present@) == Ok::<Set<int>, Seq<char>>(sets.1));
            assert(cpuset::cpulist_meaning(tree.online@) == Ok::<Set<int>, Seq<char>>(sets.2));
            assert(read_as(nodes@, want));
            assert(read_as(siblings@, tree.siblings@));
            assert(read_as(clusters@, tree.clusters@));
            assert(built(
                t,
                cpuset::cpulist_meaning(tree.possible@)->Ok_0,
                cpuset::cpulist_meaning(tree.present@)->Ok_0,
                cpuset::cpulist_meaning(tree.online@)->Ok_0,
                nodes@,
                siblings@,
                clusters@,
            ));
        }
        Ok(t)
    }

    /// One snapshot out of the pieces: the three CPU masks, each node's mask
    /// by node id, and each possible CPU's sibling and cluster masks by CPU
    /// id. Possible CPUs no node claims (never onlined, so absent from every
    /// node's cpulist) are folded into node 0, which always exists.
    pub fn assemble(
        possible: CpuSet,
        present: CpuSet,
        online: CpuSet,
        nodes: &Vec<(usize, CpuSet)>,
        siblings: &Vec<(usize, CpuSet)>,
        clusters: &Vec<(usize, CpuSet)>,
    ) -> (r: CpuTopology)
        requires
            !possible@.contains(usize::MAX as int),
            forall|i: int| 0 <= i < nodes@.len() ==> (#[trigger] nodes@[i]).0 < usize::MAX,
        ensures
            built(r, possible@, present@, online@, nodes@, siblings@, clusters@),
    {
        let nr_cpu_ids: usize = match possible.last() {
            Some(c) => {
                assert(possible@.contains(c as int));
                c + 1
            },
            None => 0,
        };
        proof {
            possible.lemma_members();
        }
        let n: usize = nodes.len();
        let mut len: usize = 0;
        assert(nodes@.take(0) =~= seq![]);
        for k in 0..n
            invariant
                n == nodes@.len(),
                forall|i: int| 0 <= i < nodes@.len() ==> (#[trigger] nodes@[i]).0 < usize::MAX,
                len == extent(nodes@.take(k as int)),
                k > 0 ==> len > 0,
        {
            assert(nodes@.take(k as int + 1).drop_last() =~= nodes@.take(k as int));
            let at: usize = nodes[k].0;
            if at >= len {
                len = at + 1;
            }
        }
        assert(nodes@.take(n as int) =~= nodes@);
        if len == 0 {
            len = 1;
        }
        let mut node_to_cpus = place(len, nodes);
        let mut all = CpuSet::new();
        for i in 0..len
            invariant
                len == node_to_cpus@.len(),
                forall|c: int| #[trigger]
                    all@.contains(c) <==> exists|j: int|
                        0 <= j < i && (#[trigger] node_to_cpus@[j])@.contains(c),
        {
            let ghost before = all@;
            all = all.or(&node_to_cpus[i]);
            proof {
                assert forall|c: int| #[trigger] all@.contains(c) <==> exists|j: int|
                    0 <= j < i + 1 && (#[trigger] node_to_cpus@[j])@.contains(c) by {
                    if before.contains(c) {
                        let j = choose|j: int|
                            0 <= j < i && (#[trigger] node_to_cpus@[j])@.contains(c);
                        assert(node_to_cpus@[j]@.contains(c));
                    }
                    if node_to_cpus@[i as int]@.contains(c) {
                        assert(all@.contains(c));
                    }
                }
            }
        }
        proof {
            assert forall|c: int| all@.contains(c) == claimed(nodes@).contains(c) by {
                if all@.contains(c) {
                    let j = choose|j: int|
                        0 <= j < len && (#[trigger] node_to_cpus@[j])@.contains(c);
                    assert(placed(nodes@, j).contains(c));
                }
                if claimed(nodes@).contains(c) {
                    let j = choose|j: int| 0 <= j && #[trigger] placed(nodes@, j).contains(c);
                    if j >= extent(nodes@) {
                        lemma_placed_past_extent(nodes@, j);
                    }
                    assert(node_to_cpus@[j]@.contains(c));
                }
            }
            assert(all@ =~= claimed(nodes@));
        }
        let loose = possible.andnot(&all);
        let ghost bare = node_to_cpus@;
        node_to_cpus[0] = node_to_cpus[0].or(&loose);
        proof {
            assert forall|c: int| #[trigger] possible@.contains(c) implies in_some_node(
                node_to_cpus@,
                c,
            ) by {
                if all@.contains(c) {
                    let j = choose|j: int| 0 <= j < len && (#[trigger] bare[j])@.contains(c);
                    if j > 0 {
                        assert(node_to_cpus@[j]@.contains(c));
                    } else {
                        assert(node_to_cpus@[0]@.contains(c));
                    }
                } else {
                    assert(node_to_cpus@[0]@.contains(c));
                }
            }
        }
        let sibling = place(nr_cpu_ids, siblings);
        let cluster = place(nr_cpu_ids, clusters);
        CpuTopology { nr_cpu_ids, possible, present, online, node_to_cpus, sibling, cluster }
    }
}

/// Whether `c` is in the mask of some node.
pub open spec fn in_some_node(nodes: Seq<CpuSet>, c: int) -> bool {
    exists|i: int| 0 <= i < nodes.len() && (#[trigger] nodes[i])@.contains(c)
}

/// What an index is given last is what it has; no other index notices.
pub proof fn lemma_placed_last(entries: Seq<(usize, CpuSet)>, at: usize, m: CpuSet, i: int)
    ensures
        placed(entries.push((at, m)), at as int) == m@,
        i != at ==> placed(entries.push((at, m)), i) == placed(entries, i),
{
    assert(entries.push((at, m)).drop_last() =~= entries);
}

/// An index that a single entry names has the mask of that entry; one that no
/// entry names has an empty mask.
pub proof fn lemma_placed_once(entries: Seq<(usize, CpuSet)>, k: int, i: int)
    requires
        0 <= k < entries.len(),
        forall|j: int| 0 <= j < entries.len() && j != k ==> (#[trigger] entries[j]).0 != i,
    ensures
        entries[k].0 == i ==> placed(entries, i) == entries[k].1@,
        entries[k].0 != i ==> placed(entries, i) == Set::<int>::empty(),
    decreases entries.len(),
{
    let rest = entries.drop_last();
    assert(entries =~= rest.push(entries.last()));
    lemma_placed_last(rest, entries.last().0, entries.last().1, i);
    if k < rest.len() {
        assert forall|j: int| 0 <= j < rest.len() && j != k implies (#[trigger] rest[j]).0
            != i by {
            assert(rest[j] == entries[j]);
        }
        assert(entries[entries.len() - 1].0 != i);
        lemma_placed_once(rest, k, i);
    } else if entries[k].0 != i {
        lemma_placed_nowhere(rest, i);
    }
}

proof fn lemma_placed_nowhere(entries: Seq<(usize, CpuSet)>, i: int)
    requires
        forall|j: int| 0 <= j < entries.len() ==> (#[trigger] entries[j]).0 != i,
    ensures
        placed(entries, i) == Set::<int>::empty(),
    decreases entries.len(),
{
    if entries.len() > 0 {
        let rest = entries.drop_last();
        assert forall|j: int| 0 <= j < rest.len() implies (#[trigger] rest[j]).0 != i by {
            assert(rest[j] == entries[j]);
        }
        assert(entries[entries.len() - 1].0 != i);
        lemma_placed_nowhere(rest, i);
    }
}

/// The list of nodes reaches every node that was named, and ends with one.
pub proof fn lemma_extent(entries: Seq<(usize, CpuSet)>)
    ensures
        forall|j: int| 0 <= j < entries.len() ==> (#[trigger] entries[j]).0 < extent(entries),
        entries.len() > 0 ==> exists|j: int|
            0 <= j < entries.len() && (#[trigger] entries[j]).0 + 1 == extent(entries),
    decreases entries.len(),
{
    if entries.len() > 0 {
        let rest = entries.drop_last();
        lemma_extent(rest);
        assert forall|j: int| 0 <= j < entries.len() implies (#[trigger] entries[j]).0 < extent(
            entries,
        ) by {
            if j < rest.len() {
                assert(rest[j] == entries[j]);
            }
        }
        if entries.last().0 >= extent(rest) {
            assert(entries[entries.len() - 1].0 + 1 == extent(entries));
        } else {
            if rest.len() == 0 {
                assert(extent(rest) == 0);
            }
            let j = choose|j: int| 0 <= j < rest.len() && (#[trigger] rest[j]).0 + 1 == extent(rest);
            assert(entries[j] == rest[j]);
        }
    }
}

/// Every possible CPU is in a node: in each that claims it, and in node 0 where
/// none does. A CPU that is not possible is where a node claims it and nowhere
/// else.
pub proof fn lemma_nodes(
    t: CpuTopology,
    possible: Set<int>,
    present: Set<int>,
    online: Set<int>,
    nodes: Seq<(usize, CpuSet)>,
    siblings: Seq<(usize, CpuSet)>,
    clusters: Seq<(usize, CpuSet)>,
    i: int,
    c: int,
)
    requires
        built(t, possible, present, online, nodes, siblings, clusters),
        0 <= i < t.node_to_cpus@.len(),
    ensures
        t.node_to_cpus@[i]@.contains(c) <==> placed(nodes, i).contains(c) || (i == 0
            && possible.contains(c) && forall|j: int|
            0 <= j ==> !#[trigger] placed(nodes, j).contains(c)),
{
}

/// A node directory is named `node` and its number.
pub proof fn lemma_named_node(id: usize, name: Seq<char>)
    ensures
        named_node("node"@ + text::decimal(id as nat)) == Some(id),
        named_node(name) is Some ==> text::has_prefix(name, "node"@),
{
    reveal_strlit("node");
    assert("node"@ =~= seq!['n', 'o', 'd', 'e']);
    let num = text::decimal(id as nat);
    let s = "node"@ + num;
    assert(s.take(4) =~= seq!['n', 'o', 'd', 'e']);
    assert(s.skip(4) =~= num);
    text::lemma_number_of_decimal(id as nat, usize::MAX as nat);
}

/// What stands in a node directory and is named like a node is a node, with what
/// its file says; nothing else is.
pub proof fn lemma_node_files(v: Seq<(String, Option<String>)>, k: nat, id: usize, f: Option<String>)
    requires
        k <= v.len(),
    ensures
        node_files(v, k).contains((id, f)) <==> exists|i: int|
            0 <= i < k && named_node((#[trigger] v[i]).0@) == Some(id) && v[i].1 == f,
    decreases k,
{
    if k > 0 {
        let m = (k - 1) as nat;
        lemma_node_files(v, m, id, f);
        let rest = node_files(v, m);
        let all = node_files(v, k);
        if all.contains((id, f)) {
            let j = choose|j: int| 0 <= j < all.len() && all[j] == (id, f);
            if j < rest.len() {
                assert(rest[j] == (id, f));
                let i = choose|i: int|
                    0 <= i < m && named_node((#[trigger] v[i]).0@) == Some(id) && v[i].1 == f;
                assert(0 <= i < k);
            } else {
                assert(named_node(v[k - 1].0@) == Some(id));
            }
        }
        if exists|i: int|
            0 <= i < k && named_node((#[trigger] v[i]).0@) == Some(id) && v[i].1 == f {
            let i = choose|i: int|
                0 <= i < k && named_node((#[trigger] v[i]).0@) == Some(id) && v[i].1 == f;
            if i < m {
                assert(rest.contains((id, f)));
                let j = choose|j: int| 0 <= j < rest.len() && rest[j] == (id, f);
                assert(all[j] == (id, f));
            } else {
                assert(all[rest.len() as int] == (id, f));
            }
        }
    }
}

/// Each mask of a topology is what its own file says: the three CPU masks, and
/// each CPU's siblings and cluster where one file is that CPU's.
pub proof fn lemma_masks_read(t: CpuTopology, tree: SysfsTree, k: int, l: int)
    requires
        read_from(t, tree),
        0 <= k < tree.siblings@.len(),
        0 <= l < tree.clusters@.len(),
        forall|j: int|
            0 <= j < tree.siblings@.len() && j != k ==> (#[trigger] tree.siblings@[j]).0
                != tree.siblings@[k].0,
        forall|j: int|
            0 <= j < tree.clusters@.len() && j != l ==> (#[trigger] tree.clusters@[j]).0
                != tree.clusters@[l].0,
    ensures
        t.possible@ == cpuset::cpulist_meaning(tree.possible@)->Ok_0,
        t.present@ == cpuset::cpulist_meaning(tree.present@)->Ok_0,
        t.online@ == cpuset::cpulist_meaning(tree.online@)->Ok_0,
        tree.siblings@[k].0 < t.nr_cpu_ids && tree.siblings@[k].1 is Some
            ==> t.sibling@[tree.siblings@[k].0 as int]@ == cpuset::cpulist_meaning(
            tree.siblings@[k].1->0@,
        )->Ok_0,
        tree.siblings@[k].0 < t.nr_cpu_ids && tree.siblings@[k].1 is None
            ==> t.sibling@[tree.siblings@[k].0 as int]@ == Set::<int>::empty(),
        tree.clusters@[l].0 < t.nr_cpu_ids && tree.clusters@[l].1 is Some
            ==> t.cluster@[tree.clusters@[l].0 as int]@ == cpuset::cpulist_meaning(
            tree.clusters@[l].1->0@,
        )->Ok_0,
        tree.clusters@[l].0 < t.nr_cpu_ids && tree.clusters@[l].1 is None
            ==> t.cluster@[tree.clusters@[l].0 as int]@ == Set::<int>::empty(),
{
    let (nodes, siblings, clusters) = choose|
        nodes: Seq<(usize, CpuSet)>,
        siblings: Seq<(usize, CpuSet)>,
        clusters: Seq<(usize, CpuSet)>,
    |
        {
            &&& read_as(nodes, node_files(tree.nodes@, tree.nodes@.len()))
            &&& read_as(siblings, tree.siblings@)
            &&& read_as(clusters, tree.clusters@)
            &&& #[trigger] built(
                t,
                cpuset::cpulist_meaning(tree.possible@)->Ok_0,
                cpuset::cpulist_meaning(tree.present@)->Ok_0,
                cpuset::cpulist_meaning(tree.online@)->Ok_0,
                nodes,
                siblings,
                clusters,
            )
        };
    assert forall|j: int| 0 <= j < siblings.len() && j != k implies (#[trigger] siblings[j]).0
        != siblings[k].0 by {
        assert(tree.siblings@[j].0 != tree.siblings@[k].0);
    }
    assert forall|j: int| 0 <= j < clusters.len() && j != l implies (#[trigger] clusters[j]).0
        != clusters[l].0 by {
        assert(tree.clusters@[j].0 != tree.clusters@[l].0);
    }
    lemma_placed_once(siblings, k, siblings[k].0 as int);
    lemma_placed_once(clusters, l, clusters[l].0 as int);
    assert(siblings[k].0 == tree.siblings@[k].0);
    assert(clusters[l].0 == tree.clusters@[l].0);
}

/// The ids of a topology's CPUs end with the highest possible one.
pub proof fn lemma_cpu_ids(
    t: CpuTopology,
    possible: Set<int>,
    present: Set<int>,
    online: Set<int>,
    nodes: Seq<(usize, CpuSet)>,
    siblings: Seq<(usize, CpuSet)>,
    clusters: Seq<(usize, CpuSet)>,
    c: int,
)
    requires
        built(t, possible, present, online, nodes, siblings, clusters),
    ensures
        possible.contains(c) ==> c < t.nr_cpu_ids,
        t.nr_cpu_ids > 0 ==> possible.contains(t.nr_cpu_ids - 1),
        t.sibling@.len() == t.nr_cpu_ids,
        t.cluster@.len() == t.nr_cpu_ids,
{
}

} // verus!
