//! Which CPU each IO queue thread is pinned to.

use vstd::prelude::*;

use crate::cpuset;
use crate::cpuset::CpuSet;
use crate::spread;
use crate::spread::spread_cpus;
use crate::text::owned;
use crate::topology;
use crate::topology::CpuTopology;

verus! {

/// Whether `cpu` is the first of `s`.
pub open spec fn is_first(cpu: Option<usize>, s: Set<int>) -> bool {
    match cpu {
        Some(c) => s.contains(c as int) && forall|k: int| #[trigger] s.contains(k) ==> c <= k,
        None => s == Set::<int>::empty(),
    }
}

/// Whether `list` is the kernel cpulist of `s`.
pub open spec fn lists_as(list: Seq<char>, s: Set<int>) -> bool {
    exists|runs: Seq<(usize, usize)>| #[trigger]
        cpuset::is_run_list(runs, s) && list == cpuset::runs_text(runs)
}

/// Whether `cpu` and `list` are what a thread is pinned to and reported on for
/// the online CPUs `s` of its group: the first of them, and all of them; with
/// none online, nowhere and `*`.
pub open spec fn placed_on(cpu: Option<usize>, list: Seq<char>, s: Set<int>) -> bool {
    &&& is_first(cpu, s)
    &&& if cpu is Some {
        lists_as(list, s)
    } else {
        list == "*"@
    }
}

/// The groups of `n` threads.
pub open spec fn thread_groups(n: nat, t: CpuTopology) -> Seq<Set<int>> {
    spread::spread(
        n,
        t.possible@,
        t.present@,
        topology::masks(t.node_to_cpus@),
        topology::masks(t.sibling@),
        topology::masks(t.cluster@),
    )
}

/// The online CPUs of group `i`; none where there is no such group.
pub open spec fn online_of(groups: Seq<Set<int>>, online: Set<int>, i: int) -> Set<int> {
    if 0 <= i < groups.len() {
        groups[i].intersect(online)
    } else {
        Set::empty()
    }
}

/// For each IO queue thread, the CPU it is pinned to and the full online CPU
/// group it belongs to. CPUs are grouped evenly per NUMA/cluster/SMT locality,
/// one group per IO thread; the thread is pinned to the group's first online
/// CPU, while the whole group is surfaced (as a kernel cpulist, e.g.
/// `"0-1,32-33"`). Without a topology no thread is pinned.
pub fn io_thread_cpus(io_threads: usize, topo: Option<&CpuTopology>) -> (r: (
    Vec<Option<usize>>,
    Vec<String>,
))
    requires
        topo matches Some(t) ==> t.possible@.len() <= usize::MAX,
    ensures
        r.0@.len() == io_threads,
        r.1@.len() == io_threads,
        forall|i: int|
            0 <= i < io_threads ==> placed_on(
                #[trigger] r.0@[i],
                r.1@[i]@,
                match topo {
                    Some(t) => online_of(thread_groups(io_threads as nat, *t), t.online@, i),
                    None => Set::empty(),
                },
            ),
{
    let mut cpus: Vec<Option<usize>> = Vec::new();
    let mut lists: Vec<String> = Vec::new();
    match topo {
        None => {
            for i in 0..io_threads
                invariant
                    cpus@.len() == i,
                    lists@.len() == i,
                    forall|j: int|
                        0 <= j < i ==> placed_on(#[trigger] cpus@[j], lists@[j]@, Set::empty()),
            {
                cpus.push(None);
                lists.push(owned("*"));
            }
        },
        Some(t) => {
            let groups = spread_cpus(io_threads, t);
            let ghost want = thread_groups(io_threads as nat, *t);
            let n: usize = groups.len();
            for i in 0..io_threads
                invariant
                    cpus@.len() == i,
                    lists@.len() == i,
                    n == groups@.len(),
                    topology::masks(groups@) == want,
                    forall|j: int|
                        0 <= j < i ==> placed_on(
                            #[trigger] cpus@[j],
                            lists@[j]@,
                            online_of(want, t.online@, j),
                        ),
            {
                let online = if i < n {
                    assert(topology::masks(groups@)[i as int] == groups@[i as int]@);
                    groups[i].and(&t.online)
                } else {
                    CpuSet::new()
                };
                assert(online@ =~= online_of(want, t.online@, i as int));
                let cpu = online.first();
                let list = if cpu.is_some() {
                    online.to_string()
                } else {
                    owned("*")
                };
                cpus.push(cpu);
                lists.push(list);
            }
        },
    }
    (cpus, lists)
}

/// A thread is pinned to the lowest online CPU of its own group, and reported on
/// all of that group's online CPUs: the list that is shown means just those.
pub proof fn lemma_pinned(cpu: Option<usize>, list: Seq<char>, n: nat, t: CpuTopology, i: int, c: int)
    requires
        0 <= i < thread_groups(n, t).len(),
        placed_on(cpu, list, online_of(thread_groups(n, t), t.online@, i)),
    ensures
        cpu is Some ==> {
            &&& t.online@.contains(cpu->0 as int)
            &&& thread_groups(n, t)[i].contains(cpu->0 as int)
            &&& cpuset::cpulist_meaning(list) is Ok
            &&& cpuset::cpulist_meaning(list)->Ok_0.contains(c) <==> thread_groups(n, t)[i].contains(
                c,
            ) && t.online@.contains(c)
        },
        thread_groups(n, t)[i].contains(c) && t.online@.contains(c) ==> cpu is Some && cpu->0 <= c,
        cpu is None ==> list == "*"@,
{
    let s = online_of(thread_groups(n, t), t.online@, i);
    if cpu is Some {
        let runs = choose|runs: Seq<(usize, usize)>| #[trigger]
            cpuset::is_run_list(runs, s) && list == cpuset::runs_text(runs);
        cpuset::lemma_cpulist_round_trip(s, runs);
    }
    if thread_groups(n, t)[i].contains(c) && t.online@.contains(c) {
        assert(s.contains(c));
    }
}

} // verus!
