//! Even grouping of CPUs per NUMA / cluster / SMT locality: a two-stage
//! spread, present CPUs first.
//!
//! One stage deals the CPUs of a mask out as a list of *parts*, and part `k`
//! goes to group `start + k`, wrapping. With no more groups than nodes the
//! parts are the nodes themselves; with more, every node is dealt out evenly
//! over its share of the groups, cluster by cluster where the clusters are
//! known and few enough.

use vstd::prelude::*;
use vstd::set_lib::*;

use crate::cpuset::CpuSet;
use crate::order;
use crate::sets;
use crate::topology;
use crate::topology::CpuTopology;

verus! {

// ---------------------------------------------------------------------------
// What the grouping means
// ---------------------------------------------------------------------------

/// The `k` CPUs taken next from `from`: always the lowest one left, and with
/// it its SMT siblings, lowest first.
pub open spec fn taken(from: Set<int>, k: nat, sib: Seq<Set<int>>) -> Set<int>
    decreases k,
    via taken_decreases
{
    if k == 0 || from == Set::<int>::empty() || !from.finite() {
        Set::empty()
    } else {
        let m = taken_at_once(from, k, sib);
        m.union(taken(from.difference(m), (k - m.len()) as nat, sib))
    }
}

/// The lowest CPU of `from` and as many of its siblings there as `k` allows.
pub open spec fn taken_at_once(from: Set<int>, k: nat, sib: Seq<Set<int>>) -> Set<int> {
    let c = sets::least(from);
    sets::lowest(from.remove(c).intersect(topology::mask_of(sib, c)), (k - 1) as nat).insert(c)
}

#[via_fn]
proof fn taken_decreases(from: Set<int>, k: nat, sib: Seq<Set<int>>) {
    if k > 0 && from != Set::<int>::empty() && from.finite() {
        lemma_taken_at_once(from, k, sib);
    }
}

proof fn lemma_taken_at_once(from: Set<int>, k: nat, sib: Seq<Set<int>>)
    requires
        from.finite(),
        from != Set::<int>::empty(),
        k > 0,
    ensures
        taken_at_once(from, k, sib).finite(),
        taken_at_once(from, k, sib).subset_of(from),
        0 < taken_at_once(from, k, sib).len() <= k,
{
    sets::lemma_least(from);
    let c = sets::least(from);
    sets::lemma_lowest(from.remove(c).intersect(topology::mask_of(sib, c)), (k - 1) as nat);
}

/// Taking moves CPUs of `from` only, and `k` of them where it has as many.
pub proof fn lemma_taken(from: Set<int>, k: nat, sib: Seq<Set<int>>)
    requires
        from.finite(),
    ensures
        taken(from, k, sib).finite(),
        taken(from, k, sib).subset_of(from),
        taken(from, k, sib).len() == if k <= from.len() {
            k
        } else {
            from.len()
        },
    decreases k,
{
    if k == 0 || from == Set::<int>::empty() {
    } else {
        lemma_taken_at_once(from, k, sib);
        let m = taken_at_once(from, k, sib);
        let rest = from.difference(m);
        lemma_taken(rest, (k - m.len()) as nat, sib);
        assert(from =~= m.union(rest));
        lemma_set_disjoint_lens(m, rest);
        lemma_set_disjoint_lens(m, taken(rest, (k - m.len()) as nat, sib));
    }
}

/// Part `j` of `n` split into `k` near-even parts: the first `n % k` parts
/// hold one more than the others.
pub open spec fn even_part(n: nat, k: nat, j: int) -> nat {
    n / k + if j < n % k {
        1nat
    } else {
        0nat
    }
}

/// The parts `j` to `k - 1` of `n` CPUs dealt into `k`, out of what is left.
pub open spec fn dealt_from(
    left: Set<int>,
    n: nat,
    k: nat,
    j: nat,
    sib: Seq<Set<int>>,
) -> Seq<Set<int>>
    decreases k - j,
{
    if j >= k {
        seq![]
    } else {
        let p = taken(left, even_part(n, k, j as int), sib);
        seq![p] + dealt_from(left.difference(p), n, k, j + 1, sib)
    }
}

/// `cpus` dealt into `k` near-even parts.
pub open spec fn dealt(cpus: Set<int>, k: nat, sib: Seq<Set<int>>) -> Seq<Set<int>> {
    dealt_from(cpus, cpus.len(), k, 0, sib)
}

/// The shares of `num` groups that go to entries of `weights`, in order: each
/// gets its proportion of what is left, rounded down, but at least one.
pub open spec fn shares(weights: Seq<nat>, num: nat, left: nat) -> Seq<nat>
    decreases weights.len(),
{
    if weights.len() == 0 {
        seq![]
    } else {
        let g = share(weights[0], num, left);
        seq![g] + shares(weights.drop_first(), (num - g) as nat, (left - weights[0]) as nat)
    }
}

/// One share: the proportion of `num` that `weight` is of `left`, at least 1.
pub open spec fn share(weight: nat, num: nat, left: nat) -> nat {
    if num * weight / left < 1 {
        1
    } else {
        num * weight / left
    }
}

/// The clusters that cover `cpus`, by their lowest CPU there; `None` where
/// some CPU has no cluster mask.
pub open spec fn clusters_of(cpus: Set<int>, cluster: Seq<Set<int>>) -> Option<Seq<Set<int>>>
    decreases cpus.len(),
    via clusters_of_decreases
{
    if cpus == Set::<int>::empty() || !cpus.finite() {
        Some(seq![])
    } else {
        let m = topology::mask_of(cluster, sets::least(cpus));
        if !m.contains(sets::least(cpus)) {
            None
        } else {
            match clusters_of(cpus.difference(m), cluster) {
                Some(rest) => Some(seq![m] + rest),
                None => None,
            }
        }
    }
}

#[via_fn]
proof fn clusters_of_decreases(cpus: Set<int>, cluster: Seq<Set<int>>) {
    if cpus.finite() && cpus != Set::<int>::empty() {
        sets::lemma_least(cpus);
        let m = topology::mask_of(cluster, sets::least(cpus));
        if m.contains(sets::least(cpus)) {
            assert(cpus.difference(m).subset_of(cpus.remove(sets::least(cpus))));
            lemma_len_subset(cpus.difference(m), cpus.remove(sets::least(cpus)));
        }
    }
}

/// Whether the search for the clusters of `cpus` ends: every CPU it comes to
/// is in its own cluster mask, or has none.
pub open spec fn searchable(cpus: Set<int>, cluster: Seq<Set<int>>) -> bool
    decreases cpus.len(),
    via searchable_decreases
{
    if cpus == Set::<int>::empty() || !cpus.finite() {
        true
    } else {
        let m = topology::mask_of(cluster, sets::least(cpus));
        m == Set::<int>::empty() || (m.contains(sets::least(cpus)) && searchable(
            cpus.difference(m),
            cluster,
        ))
    }
}

#[via_fn]
proof fn searchable_decreases(cpus: Set<int>, cluster: Seq<Set<int>>) {
    if cpus.finite() && cpus != Set::<int>::empty() {
        sets::lemma_least(cpus);
        let m = topology::mask_of(cluster, sets::least(cpus));
        if m.contains(sets::least(cpus)) {
            assert(cpus.difference(m).subset_of(cpus.remove(sets::least(cpus))));
            lemma_len_subset(cpus.difference(m), cpus.remove(sets::least(cpus)));
        }
    }
}

/// Whether one node's CPUs can be dealt over `k` groups: its clusters can be
/// searched for, and where they are used no two share a CPU of the node.
pub open spec fn node_ready(cpus: Set<int>, k: nat, cluster: Seq<Set<int>>) -> bool {
    &&& searchable(cpus, cluster)
    &&& clusters_of(cpus, cluster) matches Some(cl) ==> (0 < cl.len() <= k ==> sets::apart(
        clipped(cpus, cl),
    ))
}

/// Whether each of the ranked nodes `e` can be dealt over its share of `g`.
pub open spec fn nodes_ready(
    cpus: Set<int>,
    nodes: Seq<Set<int>>,
    e: Seq<(u128, usize)>,
    g: Seq<nat>,
    cluster: Seq<Set<int>>,
) -> bool {
    forall|i: int|
        0 <= i < e.len() ==> node_ready(
            cpus.intersect(nodes[(#[trigger] e[i]).1 as int]),
            g[i],
            cluster,
        )
}

/// Whether `cpus` can be dealt over `num` groups in one stage: where the nodes
/// are as many as the groups no cluster is looked at.
pub open spec fn stage_ready(
    cpus: Set<int>,
    num: nat,
    nodes: Seq<Set<int>>,
    cluster: Seq<Set<int>>,
) -> bool {
    let act = active(cpus, nodes);
    let w = weights_in(cpus, act);
    let e = order::ranked(entries(w), false);
    let g = shares(
        entry_weights(e),
        if sets::total(w) <= num {
            sets::total(w)
        } else {
            num
        },
        sets::total(w),
    );
    num <= act.len() || nodes_ready(cpus, act, e, g, cluster)
}

/// Whether a topology's CPUs can be grouped over `num` groups: the present ones,
/// and the possible ones that are not. Every topology whose clusters are equal
/// or apart can be ([`lemma_consistent_topology_ready`]).
pub open spec fn grouping_ready(
    num: nat,
    possible: Set<int>,
    present: Set<int>,
    nodes: Seq<Set<int>>,
    cluster: Seq<Set<int>>,
) -> bool {
    let here = present.intersect(possible);
    num > 0 ==> stage_ready(here, num, nodes, cluster) && stage_ready(
        possible.difference(here),
        num,
        nodes,
        cluster,
    )
}

/// The entries (weight, index) of a list of weights.
pub open spec fn entries(weights: Seq<nat>) -> Seq<(u128, usize)> {
    weights.map(|i: int, w: nat| (w as u128, i as usize))
}

/// How many of the CPUs in `cpus` each of `areas` holds.
pub open spec fn weights_in(cpus: Set<int>, areas: Seq<Set<int>>) -> Seq<nat> {
    areas.map_values(|a: Set<int>| cpus.intersect(a).len())
}

/// The ranked entries as plain weights.
pub open spec fn entry_weights(e: Seq<(u128, usize)>) -> Seq<nat> {
    e.map_values(|x: (u128, usize)| x.0 as nat)
}

/// `num` groups over `areas` of `cpus`: the areas ranked lightest first, each
/// dealt out over its share. `by_cluster` tells whether an area's own clusters
/// are used ([`node_parts`]) or it is dealt straight.
pub open spec fn area_parts(
    cpus: Set<int>,
    areas: Seq<Set<int>>,
    num: nat,
    sib: Seq<Set<int>>,
) -> Seq<Set<int>> {
    let e = order::ranked(entries(weights_in(cpus, areas)), false);
    let g = shares(entry_weights(e), num, sets::total(weights_in(cpus, areas)));
    parts_of_areas(cpus, areas, e, g, sib)
}

/// The parts of the ranked areas `e`, area by area, dealt over shares `g`.
pub open spec fn parts_of_areas(
    cpus: Set<int>,
    areas: Seq<Set<int>>,
    e: Seq<(u128, usize)>,
    g: Seq<nat>,
    sib: Seq<Set<int>>,
) -> Seq<Set<int>>
    decreases e.len(),
{
    if e.len() == 0 || g.len() == 0 {
        seq![]
    } else {
        parts_of_areas(cpus, areas, e.drop_last(), g.drop_last(), sib) + dealt(
            cpus.intersect(areas[e.last().1 as int]),
            g.last(),
            sib,
        )
    }
}

/// One node's CPUs over `k` groups: cluster by cluster where every CPU's
/// cluster is known and there are no more clusters than groups, straight
/// otherwise.
pub open spec fn node_parts(
    cpus: Set<int>,
    k: nat,
    sib: Seq<Set<int>>,
    cluster: Seq<Set<int>>,
) -> Seq<Set<int>> {
    match clusters_of(cpus, cluster) {
        Some(cl) => if 0 < cl.len() <= k {
            area_parts(cpus, cl, k, sib)
        } else {
            dealt(cpus, k, sib)
        },
        None => dealt(cpus, k, sib),
    }
}

/// The parts of the ranked nodes `e`, node by node, over shares `g`.
pub open spec fn parts_of_nodes(
    cpus: Set<int>,
    nodes: Seq<Set<int>>,
    e: Seq<(u128, usize)>,
    g: Seq<nat>,
    sib: Seq<Set<int>>,
    cluster: Seq<Set<int>>,
) -> Seq<Set<int>>
    decreases e.len(),
{
    if e.len() == 0 || g.len() == 0 {
        seq![]
    } else {
        parts_of_nodes(cpus, nodes, e.drop_last(), g.drop_last(), sib, cluster) + node_parts(
            cpus.intersect(nodes[e.last().1 as int]),
            g.last(),
            sib,
            cluster,
        )
    }
}

/// The nodes that hold a CPU of `cpus`, in node order.
pub open spec fn active(cpus: Set<int>, nodes: Seq<Set<int>>) -> Seq<Set<int>> {
    nodes.filter(|n: Set<int>| !cpus.disjoint(n))
}

/// The parts one stage deals `cpus` out as, over `num` groups.
pub open spec fn stage_parts(
    cpus: Set<int>,
    num: nat,
    nodes: Seq<Set<int>>,
    sib: Seq<Set<int>>,
    cluster: Seq<Set<int>>,
) -> Seq<Set<int>> {
    let act = active(cpus, nodes);
    if num <= act.len() {
        act.map_values(|n: Set<int>| cpus.intersect(n))
    } else {
        let w = weights_in(cpus, act);
        let e = order::ranked(entries(w), false);
        let g = shares(
            entry_weights(e),
            if sets::total(w) <= num {
                sets::total(w)
            } else {
                num
            },
            sets::total(w),
        );
        parts_of_nodes(cpus, act, e, g, sib, cluster)
    }
}

/// `groups` with part `k` of `parts` added to group `at + k`, wrapping.
pub open spec fn laid(groups: Seq<Set<int>>, at: int, parts: Seq<Set<int>>) -> Seq<Set<int>>
    decreases parts.len(),
{
    if parts.len() == 0 {
        groups
    } else {
        let before = laid(groups, at, parts.drop_last());
        let g = (at + parts.len() - 1) % (groups.len() as int);
        before.update(g, before[g].union(parts.last()))
    }
}

/// How many groups a stage used up: none for no CPUs, every one where the
/// nodes are as many as the groups, one per part otherwise.
pub open spec fn stage_used(
    cpus: Set<int>,
    num: nat,
    nodes: Seq<Set<int>>,
    sib: Seq<Set<int>>,
    cluster: Seq<Set<int>>,
) -> nat {
    if num <= active(cpus, nodes).len() {
        num
    } else {
        stage_parts(cpus, num, nodes, sib, cluster).len()
    }
}

// ---------------------------------------------------------------------------
// Dealing, sharing and laying: what holds of them
// ---------------------------------------------------------------------------

/// Dealing cuts the CPUs up into exactly `k` parts of near-even size.
pub proof fn lemma_dealt_from(left: Set<int>, n: nat, k: nat, j: nat, sib: Seq<Set<int>>)
    requires
        left.finite(),
        0 < k,
        j <= k,
        left.len() == n - (j * (n / k) + if j <= n % k {
            j
        } else {
            n % k
        }),
    ensures
        dealt_from(left, n, k, j, sib).len() == k - j,
        sets::partition(dealt_from(left, n, k, j, sib), left),
        forall|i: int|
            0 <= i < k - j ==> (#[trigger] dealt_from(left, n, k, j, sib)[i]).len() == even_part(
                n,
                k,
                i + j,
            ),
    decreases k - j,
{
    vstd::arithmetic::div_mod::lemma_fundamental_div_mod(n as int, k as int);
    if j == k {
        assert(left.len() == 0);
        assert(left =~= Set::empty());
        sets::lemma_partition_empty();
    } else {
        let size = even_part(n, k, j as int);
        let p = taken(left, size, sib);
        lemma_taken(left, size, sib);
        let rest = left.difference(p);
        let q = n / k;
        assert(q * k == q * j + q + q * (k - j - 1)) by (nonlinear_arith)
            requires
                k >= j + 1,
        ;
        assert((j + 1) * q == j * q + q) by (nonlinear_arith);
        assert(q * j == j * q) by (nonlinear_arith);
        assert(q * k == k * q) by (nonlinear_arith);
        assert(0 <= q * (k - j - 1)) by (nonlinear_arith)
            requires
                k >= j + 1,
                q >= 0,
        ;
        assert(size <= left.len());
        assert(left =~= p.union(rest));
        lemma_set_disjoint_lens(p, rest);
        lemma_dealt_from(rest, n, k, j + 1, sib);
        sets::lemma_partition_one(p);
        sets::lemma_partition_append(
            seq![p],
            p,
            dealt_from(rest, n, k, j + 1, sib),
            rest,
        );
        let d = dealt_from(left, n, k, j, sib);
        assert forall|i: int| 0 <= i < k - j implies (#[trigger] d[i]).len() == even_part(
            n,
            k,
            i + j,
        ) by {
            if i > 0 {
                assert(d[i] == dealt_from(rest, n, k, j + 1, sib)[i - 1]);
            }
        }
    }
}

/// Dealing `cpus` into `k` parts uses every CPU once, and the parts are as
/// even as can be.
pub proof fn lemma_dealt(cpus: Set<int>, k: nat, sib: Seq<Set<int>>)
    requires
        cpus.finite(),
        0 < k,
    ensures
        dealt(cpus, k, sib).len() == k,
        sets::partition(dealt(cpus, k, sib), cpus),
        forall|i: int|
            0 <= i < k ==> (#[trigger] dealt(cpus, k, sib)[i]).len() == even_part(
                cpus.len(),
                k,
                i,
            ),
{
    assert(0 * (cpus.len() / k) == 0);
    lemma_dealt_from(cpus, cpus.len(), k, 0, sib);
}

/// With at least one group and one CPU per entry, lightest first, every entry
/// gets at least one group and at most one per CPU, and all groups are given.
pub proof fn lemma_shares(weights: Seq<nat>, num: nat, left: nat)
    requires
        sets::total(weights) == left,
        weights.len() <= num <= left,
        forall|i: int| 0 <= i < weights.len() ==> 1 <= #[trigger] weights[i],
        forall|i: int, j: int| 0 <= i < j < weights.len() ==> weights[i] <= weights[j],
    ensures
        shares(weights, num, left).len() == weights.len(),
        forall|i: int|
            0 <= i < weights.len() ==> 1 <= #[trigger] shares(weights, num, left)[i]
                <= weights[i],
        weights.len() > 0 ==> sets::total(shares(weights, num, left)) == num,
    decreases weights.len(),
{
    if weights.len() > 0 {
        let w = weights[0];
        let rest = weights.drop_first();
        let g = share(w, num, left);
        lemma_share(weights, num, left);
        sets::lemma_total_first(weights);
        assert forall|i: int| 0 <= i < rest.len() implies 1 <= #[trigger] rest[i] by {
            assert(rest[i] == weights[i + 1]);
        }
        assert forall|i: int, j: int| 0 <= i < j < rest.len() implies rest[i] <= rest[j] by {
            assert(rest[i] == weights[i + 1] && rest[j] == weights[j + 1]);
        }
        lemma_shares(rest, (num - g) as nat, (left - w) as nat);
        let s = shares(weights, num, left);
        let r = shares(rest, (num - g) as nat, (left - w) as nat);
        assert(s.drop_first() =~= r);
        sets::lemma_total_first(s);
        if rest.len() == 0 {
            assert(rest =~= seq![]);
            assert(r =~= seq![]);
            assert(left == w);
            assert(num * w / left == num) by (nonlinear_arith)
                requires
                    left == w,
                    w >= 1,
            ;
        }
        assert forall|i: int| 0 <= i < weights.len() implies 1 <= #[trigger] s[i]
            <= weights[i] by {
            if i > 0 {
                assert(s[i] == r[i - 1]);
                assert(weights[i] == rest[i - 1]);
            }
        }
    }
}

proof fn lemma_share(weights: Seq<nat>, num: nat, left: nat)
    requires
        weights.len() > 0,
        sets::total(weights) == left,
        weights.len() <= num <= left,
        forall|i: int| 0 <= i < weights.len() ==> 1 <= #[trigger] weights[i],
        forall|i: int, j: int| 0 <= i < j < weights.len() ==> weights[i] <= weights[j],
    ensures
        1 <= share(weights[0], num, left) <= weights[0],
        share(weights[0], num, left) <= num,
        weights.len() - 1 <= num - share(weights[0], num, left) <= left - weights[0],
{
    let n = weights[0];
    let len = weights.len();
    assert forall|i: int| 0 <= i < len implies n <= #[trigger] weights[i] by {}
    sets::lemma_total_bounds(weights, n);
    assert(weights[0] <= left);
    let q = num * n / left;
    let d = (left - num) as int;
    vstd::arithmetic::div_mod::lemma_fundamental_div_mod((num * n) as int, left as int);
    let r = (num * n) % left;
    assert(num * n == left * q + r && 0 <= r < left);
    assert(q <= n) by (nonlinear_arith)
        requires
            num * n == left * q + r,
            0 <= r,
            num <= left,
            left > 0,
            n >= 0,
    ;
    assert(q >= n - d) by (nonlinear_arith)
        requires
            num * n == left * q + r,
            0 <= r < left,
            d == left - num,
            n <= left,
            left > 0,
            d >= 0,
    ;
    assert(q * len <= num) by (nonlinear_arith)
        requires
            num * n == left * q + r,
            0 <= r,
            left >= len * n,
            n >= 1,
            num >= 0,
            q >= 0,
            len >= 1,
    ;
    assert(num - q >= len - 1) by (nonlinear_arith)
        requires
            q * len <= num,
            len <= num,
            len >= 1,
            q >= 0,
    ;
}

proof fn lemma_wrap(pos: int, cur: int, n: int)
    requires
        n > 0,
        0 <= cur <= n,
        cur % n == pos % n,
    ensures
        (if cur >= n {
            0
        } else {
            cur
        }) == pos % n,
        ((if cur >= n {
            0
        } else {
            cur
        }) + 1) % n == (pos + 1) % n,
{
    if cur < n {
        vstd::arithmetic::div_mod::lemma_small_mod(cur as nat, n as nat);
    } else {
        vstd::arithmetic::div_mod::lemma_mod_self_0(n);
    }
    vstd::arithmetic::div_mod::lemma_add_mod_noop_right(1, pos, n);
}

/// Laying parts keeps the number of groups.
pub proof fn lemma_laid_len(groups: Seq<Set<int>>, at: int, parts: Seq<Set<int>>)
    requires
        groups.len() > 0,
    ensures
        laid(groups, at, parts).len() == groups.len(),
    decreases parts.len(),
{
    if parts.len() > 0 {
        vstd::arithmetic::div_mod::lemma_mod_bound(at + parts.len() - 1, groups.len() as int);
        lemma_laid_len(groups, at, parts.drop_last());
    }
}

/// Parts laid in two goes land where they would in one.
pub proof fn lemma_laid_append(
    groups: Seq<Set<int>>,
    at: int,
    a: Seq<Set<int>>,
    next: int,
    b: Seq<Set<int>>,
)
    requires
        groups.len() > 0,
        next % (groups.len() as int) == (at + a.len()) % (groups.len() as int),
    ensures
        laid(groups, at, a + b) == laid(laid(groups, at, a), next, b),
    decreases b.len(),
{
    lemma_laid_len(groups, at, a);
    if b.len() == 0 {
        assert(a + b =~= a);
    } else {
        let n = groups.len() as int;
        let c = b.drop_last();
        lemma_laid_append(groups, at, a, next, c);
        assert((a + b).drop_last() =~= a + c);
        assert((a + b).last() == b.last());
        vstd::arithmetic::div_mod::lemma_add_mod_noop_right(b.len() - 1, next, n);
        vstd::arithmetic::div_mod::lemma_add_mod_noop_right(b.len() - 1, at + a.len(), n);
    }
}

/// Part `k` goes to group `at + k`, wrapping, and nothing else goes anywhere.
pub proof fn lemma_laid_where(groups: Seq<Set<int>>, at: int, parts: Seq<Set<int>>, g: int, c: int)
    requires
        0 <= g < groups.len(),
    ensures
        laid(groups, at, parts)[g].contains(c) <==> groups[g].contains(c) || exists|k: int|
            0 <= k < parts.len() && (#[trigger] parts[k]).contains(c) && (at + k) % (
            groups.len() as int) == g,
    decreases parts.len(),
{
    if parts.len() > 0 {
        let n = groups.len() as int;
        let init = parts.drop_last();
        let k = parts.len() - 1;
        let h = (at + parts.len() - 1) % n;
        lemma_laid_len(groups, at, init);
        lemma_laid_where(groups, at, init, g, c);
        vstd::arithmetic::div_mod::lemma_mod_bound(at + k, n);
        if exists|k: int|
            0 <= k < init.len() && (#[trigger] init[k]).contains(c) && (at + k) % n == g {
            let j = choose|k: int|
                0 <= k < init.len() && (#[trigger] init[k]).contains(c) && (at + k) % n == g;
            assert(parts[j].contains(c));
        }
        if exists|k: int|
            0 <= k < parts.len() && (#[trigger] parts[k]).contains(c) && (at + k) % n == g {
            let j = choose|k: int|
                0 <= k < parts.len() && (#[trigger] parts[k]).contains(c) && (at + k) % n == g;
            if j < k {
                assert(init[j].contains(c));
            }
        }
        if g == h && parts.last().contains(c) {
            assert(parts[k].contains(c));
        }
    }
}

// ---------------------------------------------------------------------------
// Clusters and nodes
// ---------------------------------------------------------------------------

/// The masks of `areas`, each clipped to `cpus`.
pub open spec fn clipped(cpus: Set<int>, areas: Seq<Set<int>>) -> Seq<Set<int>> {
    areas.map_values(|a: Set<int>| cpus.intersect(a))
}

/// The clusters found for `cpus` cover it, and each holds a CPU of it.
pub proof fn lemma_clusters(cpus: Set<int>, cluster: Seq<Set<int>>)
    requires
        cpus.finite(),
        searchable(cpus, cluster),
    ensures
        clusters_of(cpus, cluster) matches Some(cl) ==> {
            &&& sets::together(clipped(cpus, cl)) == cpus
            &&& forall|i: int| 0 <= i < cl.len() ==> 0 < cpus.intersect(#[trigger] cl[i]).len()
            &&& forall|i: int| 0 <= i < cl.len() ==> is_cluster(#[trigger] cl[i], cpus, cluster)
        },
    decreases cpus.len(),
{
    if cpus == Set::<int>::empty() {
        assert(sets::together(clipped(cpus, seq![])) =~= cpus);
    } else {
        sets::lemma_least(cpus);
        let c0 = sets::least(cpus);
        let m = topology::mask_of(cluster, c0);
        if m.contains(c0) {
            let rest = cpus.difference(m);
            assert(rest.subset_of(cpus.remove(c0)));
            lemma_len_subset(rest, cpus.remove(c0));
            lemma_clusters(rest, cluster);
            if clusters_of(rest, cluster) is Some {
                let cl = clusters_of(rest, cluster)->0;
                let all = seq![m] + cl;
                let cut = clipped(cpus, all);
                assert forall|c: int| cpus.contains(c) implies sets::in_some(cut, c) by {
                    if m.contains(c) {
                        assert(cut[0].contains(c));
                    } else {
                        assert(sets::together(clipped(rest, cl)).contains(c));
                        let i = choose|i: int|
                            0 <= i < cl.len() && (#[trigger] clipped(rest, cl)[i]).contains(c);
                        assert(all[i + 1] == cl[i]);
                        assert(cut[i + 1].contains(c));
                    }
                }
                assert(sets::together(cut) =~= cpus);
                assert(cpus.intersect(m).contains(c0));
                assert forall|i: int| 0 <= i < all.len() implies 0 < cpus.intersect(
                    #[trigger] all[i],
                ).len() by {
                    if i > 0 {
                        assert(all[i] == cl[i - 1]);
                        lemma_len_subset(rest.intersect(cl[i - 1]), cpus.intersect(all[i]));
                    }
                }
                assert forall|i: int| 0 <= i < all.len() implies is_cluster(
                    #[trigger] all[i],
                    cpus,
                    cluster,
                ) by {
                    if i > 0 {
                        assert(all[i] == cl[i - 1]);
                        let d = choose|d: int|
                            rest.contains(d) && cl[i - 1] == topology::mask_of(cluster, d)
                                && #[trigger] cl[i - 1].contains(d);
                        assert(cpus.contains(d) && all[i].contains(d));
                    } else {
                        assert(all[0].contains(c0));
                    }
                }
            }
        }
    }
}

/// Clusters that are equal or apart are searched for with success, and those
/// found share no CPU.
proof fn lemma_agreeing_clusters(cpus: Set<int>, cluster: Seq<Set<int>>, possible: Set<int>)
    requires
        cpus.finite(),
        cpus.subset_of(possible),
        topology::clusters_agree(cluster, possible),
    ensures
        searchable(cpus, cluster),
        clusters_of(cpus, cluster) matches Some(cl) ==> sets::apart(clipped(cpus, cl)),
    decreases cpus.len(),
{
    if cpus != Set::<int>::empty() {
        sets::lemma_least(cpus);
        let c0 = sets::least(cpus);
        let m = topology::mask_of(cluster, c0);
        assert(possible.contains(c0));
        if m.contains(c0) {
            let rest = cpus.difference(m);
            assert(rest.subset_of(cpus.remove(c0)));
            lemma_len_subset(rest, cpus.remove(c0));
            lemma_agreeing_clusters(rest, cluster, possible);
            lemma_clusters(rest, cluster);
            if clusters_of(rest, cluster) is Some {
                let cl = clusters_of(rest, cluster)->0;
                let all = seq![m] + cl;
                assert forall|i: int| 0 <= i < cl.len() implies cpus.intersect(#[trigger] cl[i])
                    == rest.intersect(cl[i]) && m.disjoint(cl[i]) by {
                    assert(is_cluster(cl[i], rest, cluster));
                    let d = choose|d: int| rest.contains(d) && cl[i] == topology::mask_of(
                        cluster,
                        d,
                    ) && #[trigger] cl[i].contains(d);
                    assert(possible.contains(c0) && possible.contains(d));
                    assert(m.disjoint(cl[i])) by {
                        if m == cl[i] {
                            assert(m.contains(d));
                        }
                    }
                    assert(cpus.intersect(cl[i]) =~= rest.intersect(cl[i]));
                }
                let cut = clipped(cpus, all);
                assert forall|i: int, j: int, c: int|
                    0 <= i < j < cut.len() && #[trigger] cut[i].contains(
                        c,
                    ) implies !#[trigger] cut[j].contains(c) by {
                    assert(all[j] == cl[j - 1]);
                    if i == 0 {
                        assert(m.disjoint(cl[j - 1]));
                    } else {
                        assert(all[i] == cl[i - 1]);
                        assert(cut[i] == clipped(rest, cl)[i - 1]);
                        assert(cut[j] == clipped(rest, cl)[j - 1]);
                    }
                }
            }
        }
    }
}

/// Whether `m` is the cluster mask of some CPU of `cpus` that it holds.
pub open spec fn is_cluster(m: Set<int>, cpus: Set<int>, cluster: Seq<Set<int>>) -> bool {
    exists|d: int|
        cpus.contains(d) && m == topology::mask_of(cluster, d) && #[trigger] m.contains(d)
}

/// The weights of areas that each hold a CPU, ranked: ascending, at least one
/// each, and with the same total.
proof fn lemma_ranked_weights(w: Seq<nat>)
    requires
        w.len() <= usize::MAX,
        forall|i: int| 0 <= i < w.len() ==> 1 <= #[trigger] w[i] <= usize::MAX,
    ensures
        ({
            let e = order::ranked(entries(w), false);
            &&& e.len() == w.len()
            &&& sets::total(entry_weights(e)) == sets::total(w)
            &&& forall|i: int| 0 <= i < e.len() ==> 1 <= #[trigger] entry_weights(e)[i]
            &&& forall|i: int, j: int|
                0 <= i < j < e.len() ==> entry_weights(e)[i] <= entry_weights(e)[j]
            &&& forall|i: int|
                0 <= i < e.len() ==> (#[trigger] e[i]).1 < w.len() && e[i].0 == w[e[i].1 as int]
            &&& e.no_duplicates()
        }),
{
    let s = entries(w);
    let e = order::ranked(s, false);
    order::lemma_ranked(s, false);
    assert(s.no_duplicates()) by {
        assert forall|i: int, j: int| 0 <= i < s.len() && 0 <= j < s.len() && i != j implies s[i]
            != s[j] by {
            assert(s[i].1 == i && s[j].1 == j);
        }
    }
    assert forall|i: int| 0 <= i < e.len() implies (#[trigger] e[i]).1 < w.len() && e[i].0
        == w[e[i].1 as int] by {
        assert(e.contains(e[i]));
        let k = choose|k: int| 0 <= k < s.len() && s[k] == e[i];
        assert(s[k].1 == k);
    }
    assert forall|i: int| 0 <= i < e.len() implies 1 <= #[trigger] entry_weights(e)[i] by {
        assert(e[i].1 < w.len());
    }
    assert forall|i: int, j: int| 0 <= i < j < e.len() implies entry_weights(e)[i]
        <= entry_weights(e)[j] by {
        assert(order::precedes(e[i], e[j], false));
    }
    lemma_total_of_multiset(s, e);
    assert(entry_weights(s) =~= w) by {
        assert forall|i: int| 0 <= i < w.len() implies entry_weights(s)[i] == w[i] by {
            assert(s[i].0 == w[i]);
        }
    }
}

proof fn lemma_total_of_multiset(a: Seq<(u128, usize)>, b: Seq<(u128, usize)>)
    requires
        a.to_multiset() == b.to_multiset(),
    ensures
        sets::total(entry_weights(a)) == sets::total(entry_weights(b)),
    decreases a.len(),
{
    vstd::seq_lib::to_multiset_len(a);
    vstd::seq_lib::to_multiset_len(b);
    if a.len() == 0 {
        assert(entry_weights(a) =~= entry_weights(b));
    } else {
        let x = a.last();
        vstd::seq_lib::to_multiset_contains(a, x);
        vstd::seq_lib::to_multiset_contains(b, x);
        assert(a.contains(x)) by {
            assert(a[a.len() - 1] == x);
        }
        assert(b.contains(x));
        let k = choose|k: int| 0 <= k < b.len() && b[k] == x;
        let c = b.remove(k);
        vstd::seq_lib::to_multiset_remove(b, k);
        vstd::seq_lib::to_multiset_remove(a, a.len() - 1);
        assert(a.remove(a.len() - 1) =~= a.drop_last());
        lemma_total_of_multiset(a.drop_last(), c);
        assert(entry_weights(a).drop_last() =~= entry_weights(a.drop_last()));
        lemma_total_remove(entry_weights(b), k);
        assert(entry_weights(b).remove(k) =~= entry_weights(c));
    }
}

proof fn lemma_total_remove(v: Seq<nat>, k: int)
    requires
        0 <= k < v.len(),
    ensures
        sets::total(v) == sets::total(v.remove(k)) + v[k],
    decreases v.len(),
{
    if k == v.len() - 1 {
        assert(v.remove(k) =~= v.drop_last());
    } else {
        lemma_total_remove(v.drop_last(), k);
        assert(v.remove(k).drop_last() =~= v.drop_last().remove(k));
        assert(v.remove(k).last() == v.last());
    }
}

/// Whether every one of `parts` holds a CPU.
pub open spec fn none_empty(parts: Seq<Set<int>>) -> bool {
    forall|i: int| 0 <= i < parts.len() ==> #[trigger] parts[i] != Set::<int>::empty()
}

proof fn lemma_none_empty_append(a: Seq<Set<int>>, b: Seq<Set<int>>)
    requires
        none_empty(a),
        none_empty(b),
    ensures
        none_empty(a + b),
{
    assert forall|i: int| 0 <= i < (a + b).len() implies #[trigger] (a + b)[i] != Set::<
        int,
    >::empty() by {
        if i < a.len() {
            assert((a + b)[i] == a[i]);
        } else {
            assert((a + b)[i] == b[i - a.len()]);
        }
    }
}

/// With a CPU per part, every part that is dealt holds one.
proof fn lemma_dealt_none_empty(cpus: Set<int>, k: nat, sib: Seq<Set<int>>)
    requires
        cpus.finite(),
        0 < k <= cpus.len(),
    ensures
        none_empty(dealt(cpus, k, sib)),
{
    lemma_dealt(cpus, k, sib);
    let d = dealt(cpus, k, sib);
    assert forall|i: int| 0 <= i < d.len() implies #[trigger] d[i] != Set::<int>::empty() by {
        let n = cpus.len();
        assert(n / k >= 1) by (nonlinear_arith)
            requires
                0 < k <= n,
        ;
        assert(d[i].len() == even_part(n, k, i));
    }
}

/// Whether each of the ranked areas `e` holds a CPU per part of its share.
spec fn shares_filled(
    cpus: Set<int>,
    areas: Seq<Set<int>>,
    e: Seq<(u128, usize)>,
    g: Seq<nat>,
) -> bool {
    forall|i: int|
        0 <= i < g.len() ==> #[trigger] g[i] <= cpus.intersect(areas[e[i].1 as int]).len()
}

/// Ranked areas dealt out over their shares: one part per group, and the
/// areas' CPUs cut up.
proof fn lemma_parts_of_areas(
    cpus: Set<int>,
    areas: Seq<Set<int>>,
    e: Seq<(u128, usize)>,
    g: Seq<nat>,
    sib: Seq<Set<int>>,
)
    requires
        cpus.finite(),
        e.len() == g.len(),
        forall|i: int| 0 <= i < e.len() ==> (#[trigger] e[i]).1 < areas.len(),
        forall|i: int| 0 <= i < g.len() ==> 1 <= #[trigger] g[i],
    ensures
        parts_of_areas(cpus, areas, e, g, sib).len() == sets::total(g),
        e.no_duplicates() && unique_indices(e) && sets::apart(clipped(cpus, areas))
            ==> sets::partition(
            parts_of_areas(cpus, areas, e, g, sib),
            covered(cpus, areas, e),
        ),
        shares_filled(cpus, areas, e, g) ==> none_empty(parts_of_areas(cpus, areas, e, g, sib)),
    decreases e.len(),
{
    if e.len() == 0 {
        sets::lemma_partition_empty();
        assert(covered(cpus, areas, e) =~= Set::empty());
    } else {
        let a = cpus.intersect(areas[e.last().1 as int]);
        assert(1 <= g[g.len() - 1]);
        lemma_dealt(a, g.last(), sib);
        let init = e.drop_last();
        assert forall|i: int| 0 <= i < init.len() implies (#[trigger] init[i]).1
            < areas.len() by {
            assert(init[i] == e[i]);
        }
        let ginit = g.drop_last();
        assert forall|i: int| 0 <= i < ginit.len() implies 1 <= #[trigger] ginit[i] by {
            assert(ginit[i] == g[i]);
        }
        lemma_parts_of_areas(cpus, areas, init, ginit, sib);
        if shares_filled(cpus, areas, e, g) {
            assert(g[g.len() - 1] <= cpus.intersect(areas[e[g.len() - 1].1 as int]).len());
            lemma_dealt_none_empty(a, g.last(), sib);
            assert(shares_filled(cpus, areas, init, ginit)) by {
                assert forall|i: int| 0 <= i < ginit.len() implies #[trigger] ginit[i]
                    <= cpus.intersect(areas[init[i].1 as int]).len() by {
                    assert(ginit[i] == g[i] && init[i] == e[i]);
                }
            }
            lemma_none_empty_append(
                parts_of_areas(cpus, areas, init, ginit, sib),
                dealt(a, g.last(), sib),
            );
        }
        if e.no_duplicates() && unique_indices(e) && sets::apart(clipped(cpus, areas)) {
            lemma_covered_step(cpus, areas, e);
            sets::lemma_partition_append(
                parts_of_areas(cpus, areas, init, ginit, sib),
                covered(cpus, areas, init),
                dealt(a, g.last(), sib),
                a,
            );
        }
    }
}

/// Whether no two entries name the same index.
pub open spec fn unique_indices(e: Seq<(u128, usize)>) -> bool {
    forall|i: int, j: int| 0 <= i < j < e.len() ==> e[i].1 != e[j].1
}

/// The CPUs of `cpus` that the areas named in `e` hold.
pub open spec fn covered(cpus: Set<int>, areas: Seq<Set<int>>, e: Seq<(u128, usize)>) -> Set<int> {
    Set::new(
        |c: int|
            exists|i: int|
                0 <= i < e.len() && cpus.intersect(areas[(#[trigger] e[i]).1 as int]).contains(c),
    )
}

proof fn lemma_covered_step(cpus: Set<int>, areas: Seq<Set<int>>, e: Seq<(u128, usize)>)
    requires
        e.len() > 0,
        unique_indices(e),
        forall|i: int| 0 <= i < e.len() ==> (#[trigger] e[i]).1 < areas.len(),
        sets::apart(clipped(cpus, areas)),
    ensures
        e.drop_last().no_duplicates(),
        unique_indices(e.drop_last()),
        covered(cpus, areas, e) == covered(cpus, areas, e.drop_last()).union(
            cpus.intersect(areas[e.last().1 as int]),
        ),
        covered(cpus, areas, e.drop_last()).disjoint(
            cpus.intersect(areas[e.last().1 as int]),
        ),
{
    let init = e.drop_last();
    let a = cpus.intersect(areas[e.last().1 as int]);
    let cl = clipped(cpus, areas);
    assert(unique_indices(init)) by {
        assert forall|i: int, j: int| 0 <= i < j < init.len() implies init[i].1 != init[j].1 by {
            assert(init[i] == e[i] && init[j] == e[j]);
        }
    }
    assert(init.no_duplicates()) by {
        assert forall|i: int, j: int| 0 <= i < init.len() && 0 <= j < init.len() && i
            != j implies init[i] != init[j] by {
            if i < j {
                assert(init[i].1 != init[j].1);
            } else {
                assert(init[j].1 != init[i].1);
            }
        }
    }
    assert forall|c: int| covered(cpus, areas, e).contains(c) == (covered(
        cpus,
        areas,
        init,
    ).contains(c) || a.contains(c)) by {
        if covered(cpus, areas, e).contains(c) {
            let i = choose|i: int|
                0 <= i < e.len() && cpus.intersect(areas[(#[trigger] e[i]).1 as int]).contains(c);
            if i < init.len() {
                assert(init[i] == e[i]);
            }
        }
        if covered(cpus, areas, init).contains(c) {
            let i = choose|i: int|
                0 <= i < init.len() && cpus.intersect(
                    areas[(#[trigger] init[i]).1 as int],
                ).contains(c);
            assert(init[i] == e[i]);
        }
        if a.contains(c) {
            assert(e[e.len() - 1] == e.last());
        }
    }
    assert(covered(cpus, areas, e) =~= covered(cpus, areas, init).union(a));
    assert forall|c: int| covered(cpus, areas, init).contains(c) implies !a.contains(c) by {
        let i = choose|i: int|
            0 <= i < init.len() && cpus.intersect(areas[(#[trigger] init[i]).1 as int]).contains(
                c,
            );
        assert(init[i] == e[i]);
        let x = e[i].1 as int;
        let y = e.last().1 as int;
        assert(e[i].1 != e[e.len() - 1].1);
        assert(cl[x] == cpus.intersect(areas[x]) && cl[y] == a);
        assert(cl[x].contains(c));
        if cl[y].contains(c) {
            if x < y {
                assert(!cl[y].contains(c));
            } else {
                assert(!cl[x].contains(c));
            }
        }
    }
}

// ---------------------------------------------------------------------------
// The grouping
// ---------------------------------------------------------------------------

/// Move `cpus_per_grp` CPUs from `nmsk` into `grpmsk`, draining each chosen
/// CPU's SMT siblings first so hyperthreads land in the same group.
fn grp_spread_init_one(
    grpmsk: &mut CpuSet,
    nmsk: &mut CpuSet,
    cpus_per_grp: usize,
    sibling: &Vec<CpuSet>,
)
    ensures
        final(grpmsk)@ == old(grpmsk)@.union(
            taken(old(nmsk)@, cpus_per_grp as nat, topology::masks(sibling@)),
        ),
        final(nmsk)@ == old(nmsk)@.difference(
            taken(old(nmsk)@, cpus_per_grp as nat, topology::masks(sibling@)),
        ),
{
    let ghost sib = topology::masks(sibling@);
    let ghost whole = taken(nmsk@, cpus_per_grp as nat, sib);
    let ghost group0 = grpmsk@;
    let ghost from0 = nmsk@;
    let mut left: usize = cpus_per_grp;
    proof {
        assert(group0.union(whole) =~= grpmsk@.union(taken(nmsk@, left as nat, sib)));
        assert(from0.difference(whole) =~= nmsk@.difference(taken(nmsk@, left as nat, sib)));
    }
    while left > 0
        invariant
            sib == topology::masks(sibling@),
            group0 == old(grpmsk)@,
            from0 == old(nmsk)@,
            whole == taken(from0, cpus_per_grp as nat, sib),
            group0.union(whole) == grpmsk@.union(taken(nmsk@, left as nat, sib)),
            from0.difference(whole) == nmsk@.difference(taken(nmsk@, left as nat, sib)),
        decreases left,
    {
        let ghost k = left as nat;
        let ghost from = nmsk@;
        let ghost group = grpmsk@;
        let cpu: usize = match nmsk.first() {
            Some(c) => c,
            None => {
                assert(grpmsk@ =~= group0.union(whole));
                assert(nmsk@ =~= from0.difference(whole));
                return ;
            },
        };
        proof {
            nmsk.lemma_members();
            sets::lemma_least(from);
            assert(sets::is_least(from, cpu as int));
        }
        nmsk.clear(cpu);
        grpmsk.set(cpu);
        left = left - 1;
        let ghost avail = from.remove(cpu as int).intersect(topology::mask_of(sib, cpu as int));
        let ghost mut moved: Set<int> = Set::empty();
        // If the CPU has siblings, use them first.
        if cpu < sibling.len() {
            let sibls = sibling[cpu].iter();
            let n: usize = sibls.len();
            let mut i: usize = 0;
            assert(avail.finite());
            assert(nmsk@ =~= from.remove(cpu as int).difference(moved));
            assert(grpmsk@ =~= group.insert(cpu as int).union(moved));
            while i < n && left > 0
                invariant
                    n == sibls@.len(),
                    i <= n,
                    crate::cpuset::lists(sibls@, sib[cpu as int]),
                    avail == from.remove(cpu as int).intersect(sib[cpu as int]),
                    avail.finite(),
                    moved == sets::lowest(avail, moved.len()),
                    moved.finite(),
                    moved.subset_of(avail),
                    moved.len() + left == k - 1,
                    nmsk@ == from.remove(cpu as int).difference(moved),
                    grpmsk@ == group.insert(cpu as int).union(moved),
                    forall|x: int|
                        avail.contains(x) && (i < n ==> x < sibls@[i as int]) ==> #[trigger]
                        moved.contains(x),
                    forall|x: int| #[trigger] moved.contains(x) ==> (i < n ==> x < sibls@[i as int]),
                decreases n - i,
            {
                let sibl: usize = sibls[i];
                let ghost before = moved;
                if nmsk.test(sibl) {
                    nmsk.clear(sibl);
                    grpmsk.set(sibl);
                    left = left - 1;
                    proof {
                        assert(sib[cpu as int].contains(sibls@[i as int] as int));
                        let rest = avail.difference(before);
                        assert(sets::is_least(rest, sibl as int)) by {
                            assert forall|x: int| #[trigger] rest.contains(x) implies sibl <= x by {
                                if x < sibl {
                                    assert(before.contains(x));
                                }
                            }
                        }
                        sets::lemma_lowest_next(avail, before.len(), sibl as int);
                        moved = before.insert(sibl as int);
                        assert(nmsk@ =~= from.remove(cpu as int).difference(moved));
                        assert(grpmsk@ =~= group.insert(cpu as int).union(moved));
                    }
                }
                proof {
                    assert forall|x: int|
                        avail.contains(x) && (i + 1 < n ==> x < sibls@[i as int + 1]) implies
                        #[trigger] moved.contains(x) by {
                        assert(sib[cpu as int].contains(x));
                        let j = choose|j: int| 0 <= j < n && sibls@[j] == x as usize;
                        if j > i {
                            if i + 1 < n && j > i + 1 {
                                assert(sibls@[i as int + 1] < sibls@[j]);
                            }
                        } else if j < i {
                            assert(sibls@[j] < sibls@[i as int]);
                            assert(before.contains(x));
                        } else {
                            assert(x == sibl);
                            if !before.contains(x) {
                                assert(from.remove(cpu as int).difference(before).contains(x));
                            }
                        }
                    }
                    assert forall|x: int| #[trigger] moved.contains(x) && i + 1 < n implies x
                        < sibls@[i as int + 1] by {
                        assert(sibls@[i as int] < sibls@[i as int + 1]);
                        if before.contains(x) {
                            assert(x < sibls@[i as int]);
                        }
                    }
                }
                i = i + 1;
            }
            proof {
                if i == n {
                    assert(moved =~= avail);
                    sets::lemma_lowest(avail, (k - 1) as nat);
                } else {
                    assert(moved.len() == k - 1);
                }
            }
        } else {
            assert(avail =~= Set::empty());
            assert(sets::lowest(avail, (k - 1) as nat) =~= moved);
            assert(nmsk@ =~= from.remove(cpu as int).difference(moved));
            assert(grpmsk@ =~= group.insert(cpu as int).union(moved));
        }
        proof {
            lemma_taken_at_once(from, k, sib);
            let m = taken_at_once(from, k, sib);
            sets::lemma_lowest(avail, (k - 1) as nat);
            assert(moved == sets::lowest(avail, (k - 1) as nat));
            assert(m =~= moved.insert(cpu as int));
            assert(nmsk@ =~= from.difference(m));
            assert(grpmsk@ =~= group.union(m));
            let t = taken(nmsk@, left as nat, sib);
            assert(taken(from, k, sib) == m.union(t));
            assert(group.union(taken(from, k, sib)) =~= grpmsk@.union(t));
            assert(from.difference(taken(from, k, sib)) =~= nmsk@.difference(t));
        }
    }
    assert(grpmsk@ =~= group0.union(whole));
    assert(nmsk@ =~= from0.difference(whole));
}

/// The share of `num` groups each ranked entry gets (see [`shares`]).
fn alloc_groups_to_nodes(num: usize, left: u128, ranked: &Vec<(u128, usize)>) -> (r: Vec<usize>)
    requires
        sets::total(entry_weights(ranked@)) == left,
        ranked@.len() <= num <= left,
        forall|i: int|
            0 <= i < ranked@.len() ==> 1 <= #[trigger] entry_weights(ranked@)[i] <= usize::MAX,
        forall|i: int, j: int|
            0 <= i < j < ranked@.len() ==> entry_weights(ranked@)[i] <= entry_weights(ranked@)[j],
    ensures
        r@.map_values(|x: usize| x as nat) == shares(
            entry_weights(ranked@),
            num as nat,
            left as nat,
        ),
{
    let mut out: Vec<usize> = Vec::new();
    let mut numgrps: usize = num;
    let mut remaining: u128 = left;
    let n: usize = ranked.len();
    let ghost w = entry_weights(ranked@);
    let ghost want = shares(w, num as nat, left as nat);
    assert(w.skip(0) =~= w);
    assert(out@.map_values(|x: usize| x as nat) + want =~= want);
    for i in 0..n
        invariant
            n == ranked@.len(),
            w == entry_weights(ranked@),
            want == out@.map_values(|x: usize| x as nat) + shares(
                w.skip(i as int),
                numgrps as nat,
                remaining as nat,
            ),
            sets::total(w.skip(i as int)) == remaining,
            n - i <= numgrps <= remaining,
            forall|j: int| 0 <= j < n ==> 1 <= #[trigger] w[j] <= usize::MAX,
            forall|j: int, k: int| 0 <= j < k < n ==> w[j] <= w[k],
    {
        let weight: u128 = ranked[i].0;
        let ghost s = w.skip(i as int);
        proof {
            assert(s[0] == w[i as int] && w[i as int] == weight);
            assert forall|j: int| 0 <= j < s.len() implies 1 <= #[trigger] s[j] by {
                assert(s[j] == w[i + j]);
            }
            assert forall|j: int, k: int| 0 <= j < k < s.len() implies s[j] <= s[k] by {
                assert(s[j] == w[i + j] && s[k] == w[i + k]);
            }
            lemma_share(s, numgrps as nat, remaining as nat);
            sets::lemma_total_first(s);
            assert(s.drop_first() =~= w.skip(i as int + 1));
            assert((numgrps as u128) * weight <= 0xffff_ffff_ffff_ffffu128
                * 0xffff_ffff_ffff_ffffu128) by (nonlinear_arith)
                requires
                    numgrps <= 0xffff_ffff_ffff_ffffu128,
                    weight <= 0xffff_ffff_ffff_ffffu128,
            ;
            assert((numgrps as nat) * (weight as nat) == (numgrps as u128) * weight);
        }
        let ratio: u128 = (numgrps as u128) * weight / remaining;
        let ngroups: u128 = if ratio < 1 {
            1
        } else {
            ratio
        };
        assert(ngroups == share(s[0], numgrps as nat, remaining as nat));
        let ghost before = out@.map_values(|x: usize| x as nat);
        out.push(ngroups as usize);
        assert(out@.map_values(|x: usize| x as nat) =~= before.push(ngroups as nat));
        remaining = remaining - weight;
        numgrps = numgrps - ngroups as usize;
        assert(want =~= out@.map_values(|x: usize| x as nat) + shares(
            w.skip(i as int + 1),
            numgrps as nat,
            remaining as nat,
        ));
    }
    assert(shares(w.skip(n as int), numgrps as nat, remaining as nat) =~= seq![]);
    assert(want =~= out@.map_values(|x: usize| x as nat));
    out
}

/// Spread `ngroups` groups over the CPUs in `nmsk`, advancing (and wrapping)
/// the shared group cursor.
fn assign_cpus_to_groups(
    ncpus: usize,
    nmsk: &mut CpuSet,
    ngroups: usize,
    sibling: &Vec<CpuSet>,
    groups: &mut Vec<CpuSet>,
    curgrp: &mut usize,
)
    requires
        ngroups > 0,
        old(groups)@.len() > 0,
        *old(curgrp) <= old(groups)@.len(),
        ncpus == old(nmsk)@.len(),
    ensures
        final(groups)@.len() == old(groups)@.len(),
        topology::masks(final(groups)@) == laid(
            topology::masks(old(groups)@),
            *old(curgrp) as int,
            dealt(old(nmsk)@, ngroups as nat, topology::masks(sibling@)),
        ),
        *final(curgrp) <= final(groups)@.len(),
        *final(curgrp) as int % (final(groups)@.len() as int) == (*old(curgrp) + ngroups) % (
        final(groups)@.len() as int),
{
    let last_grp: usize = groups.len();
    let ghost sib = topology::masks(sibling@);
    let ghost n = last_grp as int;
    let ghost start = *curgrp as int;
    let ghost cpus = nmsk@;
    let ghost before = topology::masks(groups@);
    let ghost all = dealt(cpus, ngroups as nat, sib);
    let ghost mut done: Seq<Set<int>> = seq![];
    proof {
        nmsk.lemma_members();
        lemma_dealt(cpus, ngroups as nat, sib);
        assert(all =~= done + all);
        assert(laid(before, start, done) =~= before);
    }
    // Account for rounding errors.
    let base: usize = ncpus / ngroups;
    let extra_grps: usize = ncpus % ngroups;
    for j in 0..ngroups
        invariant
            ngroups > 0,
            n == last_grp,
            groups@.len() == last_grp,
            last_grp > 0,
            base == ncpus / ngroups,
            extra_grps == ncpus % ngroups,
            sib == topology::masks(sibling@),
            ncpus == cpus.len(),
            done.len() == j,
            all == done + dealt_from(nmsk@, ncpus as nat, ngroups as nat, j as nat, sib),
            all.len() == ngroups,
            topology::masks(groups@) == laid(before, start, done),
            before.len() == n,
            *curgrp <= last_grp,
            *curgrp as int % n == (start + j) % n,
    {
        proof {
            vstd::arithmetic::div_mod::lemma_fundamental_div_mod(ncpus as int, ngroups as int);
            assert(base + 1 <= ncpus || extra_grps == 0) by (nonlinear_arith)
                requires
                    ncpus == ngroups * base + extra_grps,
                    0 <= extra_grps < ngroups,
                    base >= 0,
            ;
        }
        let cpus_per_grp: usize = if j < extra_grps {
            base + 1
        } else {
            base
        };
        proof {
            lemma_wrap(start + j, *curgrp as int, n);
        }
        // Wrapping has to be considered: the cursor may start anywhere.
        if *curgrp >= last_grp {
            *curgrp = 0;
        }
        let at: usize = *curgrp;
        let mut grp = groups[at].clone();
        let ghost from = nmsk@;
        grp_spread_init_one(&mut grp, nmsk, cpus_per_grp, sibling);
        let ghost part = taken(from, cpus_per_grp as nat, sib);
        let ghost old_groups = groups@;
        groups[at] = grp;
        *curgrp = at + 1;
        proof {
            assert(cpus_per_grp == even_part(ncpus as nat, ngroups as nat, j as int));
            let next = done.push(part);
            assert(next.drop_last() =~= done);
            assert(topology::masks(groups@) =~= laid(before, start, next));
            assert(all =~= next + dealt_from(
                nmsk@,
                ncpus as nat,
                ngroups as nat,
                j as nat + 1,
                sib,
            ));
            done = next;
        }
    }
    assert(done =~= all);
}

/// The clusters of a node's CPUs; `None` where some CPU has no cluster mask.
fn probe_clusters(topo: &CpuTopology, node_cpumask: &CpuSet) -> (r: Option<Vec<CpuSet>>)
    requires
        searchable(node_cpumask@, topology::masks(topo.cluster@)),
    ensures
        match r {
            Some(cl) => clusters_of(node_cpumask@, topology::masks(topo.cluster@)) == Some(
                topology::masks(cl@),
            ),
            None => clusters_of(node_cpumask@, topology::masks(topo.cluster@)) is None,
        },
{
    let ghost cluster = topology::masks(topo.cluster@);
    let mut msk = node_cpumask.clone();
    let mut clusters: Vec<CpuSet> = Vec::new();
    let ghost want = clusters_of(node_cpumask@, cluster);
    proof {
        node_cpumask.lemma_members();
        assert(topology::masks(clusters@) =~= seq![]);
        assert(want == prefixed(topology::masks(clusters@), clusters_of(msk@, cluster))) by {
            if want is Some {
                assert(seq![] + want->0 =~= want->0);
            }
        }
    }
    loop
        invariant
            cluster == topology::masks(topo.cluster@),
            searchable(msk@, cluster),
            msk@.finite(),
            want == clusters_of(node_cpumask@, cluster),
            want == prefixed(topology::masks(clusters@), clusters_of(msk@, cluster)),
        ensures
            want == Some(topology::masks(clusters@)),
        decreases msk@.len(),
    {
        let cpu: usize = match msk.first() {
            Some(c) => c,
            None => {
                assert(topology::masks(clusters@) + seq![] =~= topology::masks(clusters@));
                break ;
            },
        };
        proof {
            msk.lemma_members();
            sets::lemma_least(msk@);
            assert(sets::is_least(msk@, cpu as int));
        }
        if cpu >= topo.cluster.len() {
            return None;
        }
        let cluster_mask = &topo.cluster[cpu];
        if cluster_mask.is_empty() {
            return None;
        }
        // Clean out CPUs on the same cluster.
        let ghost before = topology::masks(clusters@);
        let rest = msk.andnot(cluster_mask);
        proof {
            assert(cluster_mask@ == topology::mask_of(cluster, cpu as int));
            assert(cluster_mask@.contains(cpu as int));
            assert(rest@.subset_of(msk@.remove(cpu as int)));
            lemma_len_subset(rest@, msk@.remove(cpu as int));
        }
        clusters.push(cluster_mask.clone());
        proof {
            assert(topology::masks(clusters@) =~= before.push(cluster_mask@));
            if clusters_of(rest@, cluster) is Some {
                let tail = clusters_of(rest@, cluster)->0;
                assert(before + (seq![cluster_mask@] + tail) =~= topology::masks(clusters@) + tail);
            }
        }
        msk = rest;
    }
    Some(clusters)
}

/// `head` before what `tail` holds, if anything.
spec fn prefixed(head: Seq<Set<int>>, tail: Option<Seq<Set<int>>>) -> Option<Seq<Set<int>>> {
    match tail {
        Some(t) => Some(head + t),
        None => None,
    }
}

/// The weights of `areas` within `cpus` as rank entries, and their total.
fn weigh(cpus: &CpuSet, areas: &Vec<CpuSet>) -> (r: (Vec<(u128, usize)>, u128))
    requires
        cpus@.len() <= usize::MAX,
    ensures
        r.0@ == entries(weights_in(cpus@, topology::masks(areas@))),
        r.1 == sets::total(weights_in(cpus@, topology::masks(areas@))),
        forall|i: int|
            0 <= i < areas@.len() ==> #[trigger] weights_in(cpus@, topology::masks(areas@))[i]
                <= usize::MAX,
{
    let mut out: Vec<(u128, usize)> = Vec::new();
    let mut sum: u128 = 0;
    let n: usize = areas.len();
    let ghost w = weights_in(cpus@, topology::masks(areas@));
    assert(w.take(0) =~= seq![]);
    for i in 0..n
        invariant
            n == areas@.len(),
            cpus@.len() <= usize::MAX,
            w == weights_in(cpus@, topology::masks(areas@)),
            out@ == entries(w).take(i as int),
            sum == sets::total(w.take(i as int)),
            sum <= i * 0xffff_ffff_ffff_ffff,
            forall|j: int| 0 <= j < i ==> #[trigger] w[j] <= usize::MAX,
    {
        let both = cpus.and(&areas[i]);
        proof {
            cpus.lemma_members();
            lemma_len_subset(both@, cpus@);
            assert(w[i as int] == both@.len());
            assert(w.take(i as int + 1).drop_last() =~= w.take(i as int));
            assert((i + 1) * 0xffff_ffff_ffff_ffff == i * 0xffff_ffff_ffff_ffff
                + 0xffff_ffff_ffff_ffff) by (nonlinear_arith);
            assert((i + 1) * 0xffff_ffff_ffff_ffff <= 0xffff_ffff_ffff_ffff
                * 0xffff_ffff_ffff_ffff) by (nonlinear_arith)
                requires
                    i + 1 <= 0xffff_ffff_ffff_ffff,
            ;
        }
        let weight: usize = both.weight();
        out.push((weight as u128, i));
        sum = sum + weight as u128;
        assert(out@ =~= entries(w).take(i as int + 1));
    }
    assert(w.take(n as int) =~= w);
    assert(out@ =~= entries(w));
    (out, sum)
}

/// Group the node's CPUs cluster-aligned when each group can stay within one
/// cluster. Returns false, and does nothing, when a CPU of the node has no
/// cluster mask or clusters outnumber the node's groups.
fn try_group_cluster_cpus(
    topo: &CpuTopology,
    ncpus: usize,
    ngroups: usize,
    node_cpumask: &CpuSet,
    groups: &mut Vec<CpuSet>,
    curgrp: &mut usize,
) -> (r: bool)
    requires
        node_ready(node_cpumask@, ngroups as nat, topology::masks(topo.cluster@)),
        ncpus == node_cpumask@.len(),
        0 < ngroups <= ncpus,
        old(groups)@.len() > 0,
        *old(curgrp) <= old(groups)@.len(),
    ensures
        final(groups)@.len() == old(groups)@.len(),
        *final(curgrp) <= final(groups)@.len(),
        r == (clusters_of(node_cpumask@, topology::masks(topo.cluster@)) matches Some(cl) && 0
            < cl.len() <= ngroups),
        r ==> {
            &&& topology::masks(final(groups)@) == laid(
                topology::masks(old(groups)@),
                *old(curgrp) as int,
                node_parts(
                    node_cpumask@,
                    ngroups as nat,
                    topology::masks(topo.sibling@),
                    topology::masks(topo.cluster@),
                ),
            )
            &&& *final(curgrp) as int % (final(groups)@.len() as int) == (*old(curgrp) + ngroups)
                % (final(groups)@.len() as int)
        },
        !r ==> final(groups)@ == old(groups)@ && *final(curgrp) == *old(curgrp),
{
    let clusters = match probe_clusters(topo, node_cpumask) {
        Some(cl) => cl,
        None => {
            return false;
        },
    };
    // With fewer groups than clusters, crossing clusters is inevitable.
    if clusters.len() == 0 || clusters.len() > ngroups {
        return false;
    }
    let ghost sib = topology::masks(topo.sibling@);
    let ghost cl = topology::masks(clusters@);
    let ghost cpus = node_cpumask@;
    let ghost w = weights_in(cpus, cl);
    let ghost start = *curgrp as int;
    let ghost before = topology::masks(groups@);
    let weighed = weigh(node_cpumask, &clusters);
    proof {
        node_cpumask.lemma_members();
        lemma_clusters(cpus, topology::masks(topo.cluster@));
        sets::lemma_partition_len(clipped(cpus, cl), cpus);
        assert(clipped(cpus, cl).map_values(|p: Set<int>| p.len()) =~= w);
        assert forall|i: int| 0 <= i < w.len() implies 1 <= #[trigger] w[i] <= usize::MAX by {
            assert(0 < cpus.intersect(cl[i]).len());
        }
        lemma_ranked_weights(w);
    }
    let ranked = order::rank(&weighed.0, false);
    proof {
        assert forall|i: int| 0 <= i < ranked@.len() implies 1 <= #[trigger] entry_weights(
            ranked@,
        )[i] <= usize::MAX by {
            assert(ranked@[i].1 < w.len() && ranked@[i].0 == w[ranked@[i].1 as int]);
        }
    }
    let cluster_groups = alloc_groups_to_nodes(ngroups, ncpus as u128, &ranked);
    let ghost g = cluster_groups@.map_values(|x: usize| x as nat);
    proof {
        lemma_shares(entry_weights(ranked@), ngroups as nat, ncpus as nat);
    }
    let ghost mut done: Seq<Set<int>> = seq![];
    assert(laid(before, start, done) =~= before);
    let n: usize = ranked.len();
    assert(ranked@.take(0) =~= seq![] && g.take(0) =~= seq![]);
    for k in 0..n
        invariant
            n == ranked@.len() == cluster_groups@.len(),
            g == cluster_groups@.map_values(|x: usize| x as nat),
            sib == topology::masks(topo.sibling@),
            cl == topology::masks(clusters@),
            cpus == node_cpumask@,
            cpus.finite(),
            cpus.len() <= usize::MAX,
            groups@.len() == before.len(),
            before.len() > 0,
            *curgrp <= groups@.len(),
            *curgrp as int % (before.len() as int) == (start + done.len()) % (before.len() as int),
            done == parts_of_areas(cpus, cl, ranked@.take(k as int), g.take(k as int), sib),
            topology::masks(groups@) == laid(before, start, done),
            forall|i: int| 0 <= i < n ==> (#[trigger] ranked@[i]).1 < cl.len(),
            forall|i: int| 0 <= i < n ==> 1 <= #[trigger] g[i],
            done.len() == sets::total(g.take(k as int)),
    {
        // Get the CPUs on this cluster.
        let id: usize = ranked[k].1;
        let mut nmsk = node_cpumask.and(&clusters[id]);
        proof {
            lemma_len_subset(nmsk@, cpus);
            assert(1 <= g[k as int]);
        }
        let nc: usize = nmsk.weight();
        let ghost part = nmsk@;
        let ghost at = *curgrp as int;
        assign_cpus_to_groups(nc, &mut nmsk, cluster_groups[k], &topo.sibling, groups, curgrp);
        proof {
            let add = dealt(part, g[k as int], sib);
            nmsk.lemma_members();
            lemma_dealt(part, g[k as int], sib);
            lemma_laid_append(before, start, done, at, add);
            assert(ranked@.take(k as int + 1).drop_last() =~= ranked@.take(k as int));
            assert(g.take(k as int + 1).drop_last() =~= g.take(k as int));
            lemma_mod_step(start + done.len(), at, add.len() as int, before.len() as int);
            done = done + add;
        }
    }
    assert(ranked@.take(n as int) =~= ranked@ && g.take(n as int) =~= g);
    true
}

proof fn lemma_mod_step(pos: int, cur: int, step: int, n: int)
    requires
        n > 0,
        cur % n == pos % n,
    ensures
        (cur + step) % n == (pos + step) % n,
{
    vstd::arithmetic::div_mod::lemma_add_mod_noop_right(step, pos, n);
    vstd::arithmetic::div_mod::lemma_add_mod_noop_right(step, cur, n);
}

/// The nodes that hold a CPU of the mask, in ascending node order.
pub(crate) fn active_nodes(cpu_mask: &CpuSet, nodes: &Vec<CpuSet>) -> (r: Vec<CpuSet>)
    ensures
        topology::masks(r@) == active(cpu_mask@, topology::masks(nodes@)),
{
    let mut act: Vec<CpuSet> = Vec::new();
    let n: usize = nodes.len();
    let ghost m = topology::masks(nodes@);
    let ghost p = |x: Set<int>| !cpu_mask@.disjoint(x);
    reveal(Seq::filter);
    assert(m.take(0) =~= seq![]);
    assert(topology::masks(act@) =~= m.take(0).filter(p));
    for i in 0..n
        invariant
            n == nodes@.len(),
            m == topology::masks(nodes@),
            p == (|x: Set<int>| !cpu_mask@.disjoint(x)),
            topology::masks(act@) == m.take(i as int).filter(p),
    {
        let ghost before = topology::masks(act@);
        proof {
            assert(m.take(i as int + 1).drop_last() =~= m.take(i as int));
            assert(m.take(i as int + 1).last() == nodes@[i as int]@);
            reveal(Seq::filter);
        }
        if cpu_mask.intersects(&nodes[i]) {
            act.push(nodes[i].clone());
            assert(topology::masks(act@) =~= before.push(nodes@[i as int]@));
        }
    }
    assert(m.take(n as int) =~= m);
    act
}

/// The active nodes: each holds a CPU, and they cut up what the nodes hold.
pub proof fn lemma_active(cpus: Set<int>, nodes: Seq<Set<int>>)
    requires
        cpus.finite(),
    ensures
        forall|i: int|
            0 <= i < active(cpus, nodes).len() ==> 0 < cpus.intersect(
                #[trigger] active(cpus, nodes)[i],
            ).len() && nodes.contains(active(cpus, nodes)[i]),
        sets::apart(clipped(cpus, nodes)) ==> sets::partition(
            clipped(cpus, active(cpus, nodes)),
            cpus.intersect(sets::together(nodes)),
        ),
    decreases nodes.len(),
{
    reveal(Seq::filter);
    let act = active(cpus, nodes);
    if nodes.len() == 0 {
        sets::lemma_partition_empty();
        assert(clipped(cpus, act) =~= seq![]);
        assert(cpus.intersect(sets::together(nodes)) =~= Set::empty());
    } else {
        let init = nodes.drop_last();
        let last = nodes.last();
        lemma_active(cpus, init);
        let before = active(cpus, init);
        assert forall|i: int| 0 <= i < before.len() implies nodes.contains(
            #[trigger] before[i],
        ) by {
            assert(init.contains(before[i]));
            let k = choose|k: int| 0 <= k < init.len() && init[k] == before[i];
            assert(nodes[k] == before[i]);
        }
        if !cpus.disjoint(last) {
            assert(act =~= before.push(last));
            let c = choose|c: int| cpus.contains(c) && last.contains(c);
            assert(cpus.intersect(last).contains(c));
            assert(nodes[nodes.len() - 1] == last);
        }
        if sets::apart(clipped(cpus, nodes)) {
            let all = clipped(cpus, nodes);
            assert(clipped(cpus, init) =~= all.drop_last());
            assert(sets::apart(clipped(cpus, init))) by {
                let ci = clipped(cpus, init);
                assert forall|i: int, j: int, c: int|
                    0 <= i < j < ci.len() && #[trigger] ci[i].contains(c) implies !#[trigger] ci[j].contains(
                c) by {
                    assert(all[i] == ci[i] && all[j] == ci[j]);
                }
            }
            let x = cpus.intersect(sets::together(init));
            let y = cpus.intersect(last);
            assert forall|c: int| x.contains(c) implies !y.contains(c) by {
                assert(sets::together(init).contains(c));
                let i = choose|i: int| 0 <= i < init.len() && (#[trigger] init[i]).contains(c);
                assert(all[i].contains(c));
                assert(all[all.len() - 1] == y);
                assert(!all[all.len() - 1].contains(c));
            }
            assert(cpus.intersect(sets::together(nodes)) =~= x.union(y)) by {
                assert forall|c: int| sets::in_some(nodes, c) == (sets::in_some(init, c)
                    || last.contains(c)) by {
                    if sets::in_some(nodes, c) {
                        let i = choose|i: int|
                            0 <= i < nodes.len() && (#[trigger] nodes[i]).contains(c);
                        if i < init.len() {
                            assert(init[i].contains(c));
                        }
                    }
                    if sets::in_some(init, c) {
                        let i = choose|i: int|
                            0 <= i < init.len() && (#[trigger] init[i]).contains(c);
                        assert(nodes[i].contains(c));
                    }
                    if last.contains(c) {
                        assert(nodes[nodes.len() - 1].contains(c));
                    }
                }
            }
            if cpus.disjoint(last) {
                assert(y =~= Set::empty());
                assert(x.union(y) =~= x);
                assert(act =~= before);
            } else {
                sets::lemma_partition_one(y);
                sets::lemma_partition_append(clipped(cpus, before), x, seq![y], y);
                assert(clipped(cpus, act) =~= clipped(cpus, before) + seq![y]);
            }
        }
    }
}

/// Spread one node's CPUs over its groups.
fn group_node(
    topo: &CpuTopology,
    nmsk: &mut CpuSet,
    ngroups: usize,
    groups: &mut Vec<CpuSet>,
    curgrp: &mut usize,
)
    requires
        node_ready(old(nmsk)@, ngroups as nat, topology::masks(topo.cluster@)),
        0 < ngroups <= old(nmsk)@.len() <= usize::MAX,
        old(groups)@.len() > 0,
        *old(curgrp) <= old(groups)@.len(),
    ensures
        final(groups)@.len() == old(groups)@.len(),
        *final(curgrp) <= final(groups)@.len(),
        topology::masks(final(groups)@) == laid(
            topology::masks(old(groups)@),
            *old(curgrp) as int,
            node_parts(
                old(nmsk)@,
                ngroups as nat,
                topology::masks(topo.sibling@),
                topology::masks(topo.cluster@),
            ),
        ),
        *final(curgrp) as int % (final(groups)@.len() as int) == (*old(curgrp) + ngroups) % (
        final(groups)@.len() as int),
{
    let ncpus: usize = nmsk.weight();
    if try_group_cluster_cpus(topo, ncpus, ngroups, nmsk, groups, curgrp) {
        return ;
    }
    assign_cpus_to_groups(ncpus, nmsk, ngroups, &topo.sibling, groups, curgrp);
}

/// One node dealt out: one part per group, and its CPUs cut up.
proof fn lemma_node_parts(
    cpus: Set<int>,
    k: nat,
    sib: Seq<Set<int>>,
    cluster: Seq<Set<int>>,
)
    requires
        cpus.finite(),
        cpus.len() <= usize::MAX,
        node_ready(cpus, k, cluster),
        0 < k <= cpus.len(),
    ensures
        node_parts(cpus, k, sib, cluster).len() == k,
        sets::partition(node_parts(cpus, k, sib, cluster), cpus),
        none_empty(node_parts(cpus, k, sib, cluster)),
{
    lemma_dealt(cpus, k, sib);
    lemma_dealt_none_empty(cpus, k, sib);
    lemma_clusters(cpus, cluster);
    if clusters_of(cpus, cluster) is Some {
        let cl = clusters_of(cpus, cluster)->0;
        if 0 < cl.len() <= k {
            let w = weights_in(cpus, cl);
            sets::lemma_partition_len(clipped(cpus, cl), cpus);
            assert(clipped(cpus, cl).map_values(|p: Set<int>| p.len()) =~= w);
            assert forall|i: int| 0 <= i < w.len() implies 1 <= #[trigger] w[i] <= usize::MAX by {
                assert(0 < cpus.intersect(cl[i]).len());
                lemma_len_subset(cpus.intersect(cl[i]), cpus);
            }
            lemma_ranked_weights(w);
            let e = order::ranked(entries(w), false);
            lemma_shares(entry_weights(e), k, cpus.len());
            let g = shares(entry_weights(e), k, cpus.len());
            assert(shares_filled(cpus, cl, e, g)) by {
                assert forall|i: int| 0 <= i < g.len() implies #[trigger] g[i]
                    <= cpus.intersect(cl[e[i].1 as int]).len() by {
                    assert(entry_weights(e)[i] == w[e[i].1 as int]);
                }
            }
            lemma_parts_of_areas(cpus, cl, e, g, sib);
            lemma_all_covered(cpus, cl, w, e);
        }
    }
}

/// The ranked entries name every area once, so they cover what the areas do.
proof fn lemma_all_covered(
    cpus: Set<int>,
    areas: Seq<Set<int>>,
    w: Seq<nat>,
    e: Seq<(u128, usize)>,
)
    requires
        w.len() == areas.len() <= usize::MAX,
        e == order::ranked(entries(w), false),
    ensures
        unique_indices(e),
        covered(cpus, areas, e) == sets::together(clipped(cpus, areas)),
{
    let s = entries(w);
    order::lemma_ranked(s, false);
    assert(s.no_duplicates()) by {
        assert forall|i: int, j: int| 0 <= i < s.len() && 0 <= j < s.len() && i != j implies s[i]
            != s[j] by {
            assert(s[i].1 == i && s[j].1 == j);
        }
    }
    assert forall|i: int| 0 <= i < e.len() implies s.contains(#[trigger] e[i]) by {
        assert(e.contains(e[i]));
    }
    assert(unique_indices(e)) by {
        assert forall|i: int, j: int| 0 <= i < j < e.len() implies e[i].1 != e[j].1 by {
            let a = choose|k: int| 0 <= k < s.len() && s[k] == e[i];
            let b = choose|k: int| 0 <= k < s.len() && s[k] == e[j];
            assert(s[a].1 == a && s[b].1 == b);
            if e[i].1 == e[j].1 {
                assert(a == b);
                assert(e[i] == e[j]);
            }
        }
    }
    let cl = clipped(cpus, areas);
    assert forall|c: int| covered(cpus, areas, e).contains(c) == sets::in_some(cl, c) by {
        if covered(cpus, areas, e).contains(c) {
            let i = choose|i: int|
                0 <= i < e.len() && cpus.intersect(areas[(#[trigger] e[i]).1 as int]).contains(c);
            assert(s.contains(e[i]));
            let k = choose|k: int| 0 <= k < s.len() && s[k] == e[i];
            assert(s[k].1 == k);
            assert(cl[k].contains(c));
        }
        if sets::in_some(cl, c) {
            let k = choose|k: int| 0 <= k < cl.len() && (#[trigger] cl[k]).contains(c);
            assert(s.contains(s[k]));
            assert(e.contains(s[k]));
            let i = choose|i: int| 0 <= i < e.len() && e[i] == s[k];
            assert(e[i].1 == k);
        }
    }
    assert(covered(cpus, areas, e) =~= sets::together(cl));
}

/// Ranked nodes dealt out: one part per group, every part inside one node,
/// and the nodes' CPUs cut up.
proof fn lemma_parts_of_nodes(
    cpus: Set<int>,
    nodes: Seq<Set<int>>,
    e: Seq<(u128, usize)>,
    g: Seq<nat>,
    sib: Seq<Set<int>>,
    cluster: Seq<Set<int>>,
)
    requires
        cpus.finite(),
        cpus.len() <= usize::MAX,
        nodes_ready(cpus, nodes, e, g, cluster),
        e.len() == g.len(),
        forall|i: int| 0 <= i < e.len() ==> (#[trigger] e[i]).1 < nodes.len(),
        forall|i: int|
            0 <= i < g.len() ==> 1 <= #[trigger] g[i] <= cpus.intersect(
                nodes[e[i].1 as int],
            ).len(),
    ensures
        parts_of_nodes(cpus, nodes, e, g, sib, cluster).len() == sets::total(g),
        forall|i: int|
            0 <= i < sets::total(g) ==> inside_one(
                #[trigger] parts_of_nodes(cpus, nodes, e, g, sib, cluster)[i],
                nodes,
            ),
        unique_indices(e) && sets::apart(clipped(cpus, nodes)) ==> sets::partition(
            parts_of_nodes(cpus, nodes, e, g, sib, cluster),
            covered(cpus, nodes, e),
        ),
        none_empty(parts_of_nodes(cpus, nodes, e, g, sib, cluster)),
    decreases e.len(),
{
    if e.len() == 0 {
        sets::lemma_partition_empty();
        assert(covered(cpus, nodes, e) =~= Set::empty());
    } else {
        let a = cpus.intersect(nodes[e.last().1 as int]);
        assert(1 <= g[g.len() - 1] <= cpus.intersect(nodes[e[e.len() - 1].1 as int]).len());
        lemma_len_subset(a, cpus);
        assert(node_ready(cpus.intersect(nodes[e[e.len() - 1].1 as int]), g[e.len() - 1], cluster));
        lemma_node_parts(a, g.last(), sib, cluster);
        let add = node_parts(a, g.last(), sib, cluster);
        let init = e.drop_last();
        let ginit = g.drop_last();
        assert forall|i: int| 0 <= i < init.len() implies (#[trigger] init[i]).1
            < nodes.len() by {
            assert(init[i] == e[i]);
        }
        assert forall|i: int| 0 <= i < ginit.len() implies 1 <= #[trigger] ginit[i]
            <= cpus.intersect(nodes[init[i].1 as int]).len() by {
            assert(ginit[i] == g[i] && init[i] == e[i]);
        }
        assert(nodes_ready(cpus, nodes, init, ginit, cluster)) by {
            assert forall|i: int| 0 <= i < init.len() implies node_ready(
                cpus.intersect(nodes[(#[trigger] init[i]).1 as int]),
                ginit[i],
                cluster,
            ) by {
                assert(init[i] == e[i] && ginit[i] == g[i]);
            }
        }
        lemma_parts_of_nodes(cpus, nodes, init, ginit, sib, cluster);
        let head = parts_of_nodes(cpus, nodes, init, ginit, sib, cluster);
        let all = parts_of_nodes(cpus, nodes, e, g, sib, cluster);
        lemma_none_empty_append(head, add);
        assert forall|i: int| 0 <= i < sets::total(g) implies inside_one(
            #[trigger] all[i],
            nodes,
        ) by {
            if i < head.len() {
                assert(all[i] == head[i]);
            } else {
                let k = i - head.len();
                assert(all[i] == add[k]);
                assert forall|c: int| add[k].contains(c) implies nodes[e.last().1 as int].contains(
                    c,
                ) by {
                    assert(sets::together(add).contains(c));
                }
                assert(add[k].subset_of(nodes[e.last().1 as int]));
            }
        }
        if unique_indices(e) && sets::apart(clipped(cpus, nodes)) {
            lemma_covered_step(cpus, nodes, e);
            sets::lemma_partition_append(head, covered(cpus, nodes, init), add, a);
        }
    }
}

/// Whether `part` lies in one of `areas`.
pub open spec fn inside_one(part: Set<int>, areas: Seq<Set<int>>) -> bool {
    exists|i: int| 0 <= i < areas.len() && part.subset_of(#[trigger] areas[i])
}

/// One spread stage over `cpu_mask`. Returns the number of groups allocated
/// by this stage.
fn group_evenly_stage(
    topo: &CpuTopology,
    startgrp: usize,
    cpu_mask: &CpuSet,
    groups: &mut Vec<CpuSet>,
) -> (r: usize)
    requires
        stage_ready(
            cpu_mask@,
            old(groups)@.len(),
            topology::masks(topo.node_to_cpus@),
            topology::masks(topo.cluster@),
        ),
        cpu_mask@.len() <= usize::MAX,
        startgrp < old(groups)@.len(),
    ensures
        final(groups)@.len() == old(groups)@.len(),
        topology::masks(final(groups)@) == laid(
            topology::masks(old(groups)@),
            startgrp as int,
            stage_parts(
                cpu_mask@,
                old(groups)@.len(),
                topology::masks(topo.node_to_cpus@),
                topology::masks(topo.sibling@),
                topology::masks(topo.cluster@),
            ),
        ),
        r == stage_used(
            cpu_mask@,
            old(groups)@.len(),
            topology::masks(topo.node_to_cpus@),
            topology::masks(topo.sibling@),
            topology::masks(topo.cluster@),
        ),
{
    let numgrps: usize = groups.len();
    let mut curgrp: usize = startgrp;
    let ghost n = numgrps as int;
    let ghost nodes = topology::masks(topo.node_to_cpus@);
    let ghost sib = topology::masks(topo.sibling@);
    let ghost cluster = topology::masks(topo.cluster@);
    let ghost cpus = cpu_mask@;
    let ghost start = startgrp as int;
    let ghost before = topology::masks(groups@);
    let nodes_in = active_nodes(cpu_mask, &topo.node_to_cpus);
    let ghost act = topology::masks(nodes_in@);
    let ghost mut done: Seq<Set<int>> = seq![];
    proof {
        cpu_mask.lemma_members();
        lemma_active(cpus, nodes);
        assert(laid(before, start, done) =~= before);
        vstd::arithmetic::div_mod::lemma_small_mod(startgrp as nat, numgrps as nat);
    }
    // With at least as many nodes in the mask as groups, just spread the
    // groups across the nodes.
    if numgrps <= nodes_in.len() {
        let len: usize = nodes_in.len();
        for k in 0..len
            invariant
                len == nodes_in@.len(),
                act == topology::masks(nodes_in@),
                cpus == cpu_mask@,
                groups@.len() == numgrps == before.len(),
                n == numgrps,
                curgrp < numgrps,
                done == clipped(cpus, act).take(k as int),
                curgrp == (start + k) % n,
                topology::masks(groups@) == laid(before, start, done),
        {
            let nmsk = cpu_mask.and(&nodes_in[k]);
            let ghost grp = groups@;
            groups[curgrp] = groups[curgrp].or(&nmsk);
            proof {
                let next = done.push(nmsk@);
                assert(next =~= clipped(cpus, act).take(k as int + 1));
                assert(next.drop_last() =~= done);
                assert(topology::masks(groups@) =~= laid(before, start, next));
                vstd::arithmetic::div_mod::lemma_small_mod(curgrp as nat, n as nat);
                lemma_wrap(start + k, curgrp as int, n);
                vstd::arithmetic::div_mod::lemma_mod_self_0(n);
                if curgrp + 1 < numgrps {
                    vstd::arithmetic::div_mod::lemma_small_mod((curgrp + 1) as nat, n as nat);
                }
                done = next;
            }
            curgrp = curgrp + 1;
            if curgrp == numgrps {
                curgrp = 0;
            }
        }
        assert(clipped(cpus, act).take(len as int) =~= clipped(cpus, act));
        return numgrps;
    }
    // Allocate group numbers for each node.
    let weighed = weigh(cpu_mask, &nodes_in);
    let numcpus: u128 = weighed.1;
    let ghost w = weights_in(cpus, act);
    proof {
        assert forall|i: int| 0 <= i < w.len() implies 1 <= #[trigger] w[i] <= usize::MAX by {
            assert(0 < cpus.intersect(act[i]).len());
        }
        lemma_ranked_weights(w);
        sets::lemma_total_bounds(w, 1);
        assert(w.len() * 1 == w.len());
    }
    let ranked = order::rank(&weighed.0, false);
    let wanted: usize = if numcpus < numgrps as u128 {
        numcpus as usize
    } else {
        numgrps
    };
    proof {
        assert forall|i: int| 0 <= i < ranked@.len() implies 1 <= #[trigger] entry_weights(
            ranked@,
        )[i] <= usize::MAX by {
            assert(ranked@[i].1 < w.len() && ranked@[i].0 == w[ranked@[i].1 as int]);
        }
    }
    let node_groups = alloc_groups_to_nodes(wanted, numcpus, &ranked);
    let ghost g = node_groups@.map_values(|x: usize| x as nat);
    proof {
        lemma_shares(entry_weights(ranked@), wanted as nat, numcpus as nat);
    }
    let count: usize = ranked.len();
    let mut total: usize = 0;
    assert(ranked@.take(0) =~= seq![] && g.take(0) =~= seq![]);
    for k in 0..count
        invariant
            nodes_ready(cpus, act, ranked@, g, cluster),
            count == ranked@.len() == node_groups@.len(),
            g == node_groups@.map_values(|x: usize| x as nat),
            act == topology::masks(nodes_in@),
            sib == topology::masks(topo.sibling@),
            cluster == topology::masks(topo.cluster@),
            cpus == cpu_mask@,
            cpus.finite(),
            cpus.len() <= usize::MAX,
            groups@.len() == numgrps == before.len(),
            n == numgrps > 0,
            curgrp <= numgrps,
            curgrp as int % n == (start + done.len()) % n,
            done == parts_of_nodes(cpus, act, ranked@.take(k as int), g.take(k as int), sib, cluster),
            topology::masks(groups@) == laid(before, start, done),
            forall|i: int|
                0 <= i < count ==> (#[trigger] ranked@[i]).1 < act.len() && ranked@[i].0
                    == w[ranked@[i].1 as int],
            w == weights_in(cpus, act),
            forall|i: int| 0 <= i < count ==> 1 <= #[trigger] g[i] <= entry_weights(ranked@)[i],
            done.len() == sets::total(g.take(k as int)) == total,
            sets::total(g) <= wanted,
            wanted <= usize::MAX,
    {
        let id: usize = ranked[k].1;
        // Get the CPUs on this node which are in the mask.
        let mut nmsk = cpu_mask.and(&nodes_in[id]);
        let ghost part = nmsk@;
        let ghost at = curgrp as int;
        let ngroups: usize = node_groups[k];
        proof {
            lemma_len_subset(part, cpus);
            assert(node_ready(cpus.intersect(act[ranked@[k as int].1 as int]), g[k as int], cluster));
            assert(1 <= g[k as int] <= entry_weights(ranked@)[k as int]);
            assert(entry_weights(ranked@)[k as int] == w[id as int]);
            lemma_total_take(g, k as int);
        }
        group_node(topo, &mut nmsk, ngroups, groups, &mut curgrp);
        proof {
            let add = node_parts(part, g[k as int], sib, cluster);
            lemma_node_parts(part, g[k as int], sib, cluster);
            lemma_laid_append(before, start, done, at, add);
            assert(ranked@.take(k as int + 1).drop_last() =~= ranked@.take(k as int));
            assert(g.take(k as int + 1).drop_last() =~= g.take(k as int));
            lemma_mod_step(start + done.len(), at, add.len() as int, n);
            done = done + add;
        }
        total = total + ngroups;
    }
    assert(ranked@.take(count as int) =~= ranked@ && g.take(count as int) =~= g);
    total
}

pub proof fn lemma_total_take(v: Seq<nat>, k: int)
    requires
        0 <= k < v.len(),
    ensures
        sets::total(v.take(k)) + v[k] <= sets::total(v),
    decreases v.len(),
{
    if k == v.len() - 1 {
        assert(v.take(k) =~= v.drop_last());
    } else {
        lemma_total_take(v.drop_last(), k);
        assert(v.drop_last().take(k) =~= v.take(k));
    }
}

/// `n` empty groups.
pub open spec fn empty_groups(n: nat) -> Seq<Set<int>> {
    Seq::new(n, |i: int| Set::<int>::empty())
}

/// The groups of `num` that a topology's CPUs make: present CPUs spread
/// first, then the possible ones that are not present, starting at the next
/// group to be handled; groups nobody reached are left off the end.
pub open spec fn grouping(
    num: nat,
    possible: Set<int>,
    present: Set<int>,
    nodes: Seq<Set<int>>,
    sib: Seq<Set<int>>,
    cluster: Seq<Set<int>>,
) -> Seq<Set<int>> {
    if num == 0 {
        seq![]
    } else {
        let here = present.intersect(possible);
        let other = possible.difference(here);
        let used = stage_used(here, num, nodes, sib, cluster);
        let first = laid(empty_groups(num), 0, stage_parts(here, num, nodes, sib, cluster));
        let at = if used >= num {
            0
        } else {
            used as int
        };
        let both = laid(first, at, stage_parts(other, num, nodes, sib, cluster));
        let reached = used + stage_used(other, num, nodes, sib, cluster);
        both.take(
            if reached < num {
                reached as int
            } else {
                num as int
            },
        )
    }
}

/// Group all CPUs evenly per NUMA/CPU locality.
///
/// Returns the initialized group masks; the result length can be less than
/// `numgrps` when there are fewer possible CPUs than groups. Two-stage spread:
/// present CPUs are distributed first, then possible-but-not-present CPUs, so
/// the grouping covers every possible CPU exactly once
/// ([`lemma_grouping_covers_once`]).
pub fn group_cpus_evenly(numgrps: usize, topo: &CpuTopology) -> (r: Vec<CpuSet>)
    requires
        topo.possible@.len() <= usize::MAX,
        grouping_ready(
            numgrps as nat,
            topo.possible@,
            topo.present@,
            topology::masks(topo.node_to_cpus@),
            topology::masks(topo.cluster@),
        ),
    ensures
        topology::masks(r@) == grouping(
            numgrps as nat,
            topo.possible@,
            topo.present@,
            topology::masks(topo.node_to_cpus@),
            topology::masks(topo.sibling@),
            topology::masks(topo.cluster@),
        ),
{
    let mut groups: Vec<CpuSet> = Vec::new();
    if numgrps == 0 {
        assert(topology::masks(groups@) =~= seq![]);
        return groups;
    }
    for i in 0..numgrps
        invariant
            topology::masks(groups@) == empty_groups(i as nat),
            groups@.len() == i,
    {
        let ghost before = groups@;
        groups.push(CpuSet::new());
        assert(topology::masks(groups@) =~= empty_groups(i as nat + 1)) by {
            assert forall|k: int| 0 <= k < i + 1 implies topology::masks(groups@)[k] == empty_groups(
                i as nat + 1,
            )[k] by {
                if k < i {
                    assert(topology::masks(before)[k] == empty_groups(i as nat)[k]);
                }
            }
        }
    }
    proof {
        topo.possible.lemma_members();
    }
    // Grouping present CPUs first.
    let present = topo.present.and(&topo.possible);
    proof {
        lemma_len_subset(present@, topo.possible@);
    }
    let nr_present: usize = group_evenly_stage(topo, 0, &present, &mut groups);
    // Then the CPUs that are not present, starting from the next group to be
    // handled; with the group space already exhausted they go to the groups
    // handed out before.
    let curgrp: usize = if nr_present >= numgrps {
        0
    } else {
        nr_present
    };
    let npresmsk = topo.possible.andnot(&present);
    proof {
        lemma_len_subset(npresmsk@, topo.possible@);
    }
    let nr_others: usize = group_evenly_stage(topo, curgrp, &npresmsk, &mut groups);
    let ghost both = groups@;
    if nr_present < numgrps && nr_others < numgrps - nr_present {
        groups.truncate(nr_present + nr_others);
        assert(topology::masks(groups@) =~= topology::masks(both).take(
            (nr_present + nr_others) as int,
        ));
    } else {
        assert(topology::masks(groups@) =~= topology::masks(both).take(numgrps as int));
    }
    groups
}

// ---------------------------------------------------------------------------
// What the grouping promises
// ---------------------------------------------------------------------------

/// Whether the nodes cut the possible CPUs up: each is in exactly one node.
pub open spec fn nodes_cover_once(possible: Set<int>, nodes: Seq<Set<int>>) -> bool {
    sets::partition(clipped(possible, nodes), possible)
}

/// What the active nodes hold of `cpus` cuts it up, and each holds some of it.
proof fn lemma_stage_nodes(cpus: Set<int>, possible: Set<int>, nodes: Seq<Set<int>>)
    requires
        possible.finite(),
        possible.len() <= usize::MAX,
        cpus.subset_of(possible),
        nodes_cover_once(possible, nodes),
    ensures
        cpus.finite(),
        cpus.len() <= usize::MAX,
        sets::partition(clipped(cpus, active(cpus, nodes)), cpus),
        weights_in(cpus, active(cpus, nodes)).len() == active(cpus, nodes).len() <= cpus.len(),
        sets::total(weights_in(cpus, active(cpus, nodes))) == cpus.len(),
        forall|i: int|
            0 <= i < active(cpus, nodes).len() ==> 1 <= #[trigger] weights_in(
                cpus,
                active(cpus, nodes),
            )[i] <= usize::MAX,
        forall|i: int|
            0 <= i < active(cpus, nodes).len() ==> nodes.contains(
                #[trigger] active(cpus, nodes)[i],
            ),
{
    lemma_set_subset_finite(possible, cpus);
    lemma_len_subset(cpus, possible);
    let act = active(cpus, nodes);
    let whole = clipped(possible, nodes);
    let cut = clipped(cpus, nodes);
    assert(sets::apart(cut)) by {
        assert forall|i: int, j: int, c: int|
            0 <= i < j < cut.len() && #[trigger] cut[i].contains(c) implies !#[trigger] cut[j].contains(
        c) by {
            assert(whole[i].contains(c));
            assert(!whole[j].contains(c));
        }
    }
    lemma_active(cpus, nodes);
    assert(cpus.intersect(sets::together(nodes)) =~= cpus) by {
        assert forall|c: int| cpus.contains(c) implies sets::in_some(nodes, c) by {
            assert(possible.contains(c));
            assert(sets::together(whole).contains(c));
            let i = choose|i: int| 0 <= i < whole.len() && (#[trigger] whole[i]).contains(c);
            assert(nodes[i].contains(c));
        }
    }
    let ca = clipped(cpus, act);
    let w = weights_in(cpus, act);
    sets::lemma_partition_len(ca, cpus);
    assert(ca.map_values(|p: Set<int>| p.len()) =~= w);
    assert forall|i: int| 0 <= i < w.len() implies 1 <= #[trigger] w[i] <= usize::MAX by {
        assert(0 < cpus.intersect(act[i]).len());
        lemma_len_subset(cpus.intersect(act[i]), cpus);
    }
    sets::lemma_total_bounds(w, 1);
    assert(w.len() * 1 == w.len());
}

/// What lies in an active node lies in a node.
proof fn lemma_inside_active(part: Set<int>, act: Seq<Set<int>>, nodes: Seq<Set<int>>)
    requires
        inside_one(part, act),
        forall|i: int| 0 <= i < act.len() ==> nodes.contains(#[trigger] act[i]),
    ensures
        inside_one(part, nodes),
{
    let a = choose|a: int| 0 <= a < act.len() && part.subset_of(#[trigger] act[a]);
    assert(nodes.contains(act[a]));
    let k = choose|k: int| 0 <= k < nodes.len() && nodes[k] == act[a];
    assert(part.subset_of(nodes[k]));
}

/// Whether the ranked nodes `e` have a share each that their CPUs can fill, the
/// shares being `wanted` together.
spec fn shared_out(
    cpus: Set<int>,
    act: Seq<Set<int>>,
    e: Seq<(u128, usize)>,
    g: Seq<nat>,
    wanted: nat,
) -> bool {
    &&& e.len() == g.len()
    &&& sets::total(g) == wanted
    &&& forall|i: int| 0 <= i < e.len() ==> (#[trigger] e[i]).1 < act.len()
    &&& forall|i: int|
        0 <= i < g.len() ==> 1 <= #[trigger] g[i] <= cpus.intersect(act[e[i].1 as int]).len()
}

proof fn lemma_shared_out(cpus: Set<int>, act: Seq<Set<int>>, wanted: nat)
    requires
        act.len() <= usize::MAX,
        forall|i: int|
            0 <= i < act.len() ==> 1 <= #[trigger] weights_in(cpus, act)[i] <= usize::MAX,
        act.len() <= wanted <= sets::total(weights_in(cpus, act)),
    ensures
        ({
            let w = weights_in(cpus, act);
            let e = order::ranked(entries(w), false);
            shared_out(cpus, act, e, shares(entry_weights(e), wanted, sets::total(w)), wanted)
        }),
{
    let w = weights_in(cpus, act);
    let e = order::ranked(entries(w), false);
    lemma_ranked_weights(w);
    let weights = entry_weights(e);
    lemma_shares(weights, wanted, sets::total(w));
    let g = shares(weights, wanted, sets::total(w));
    assert forall|i: int| 0 <= i < g.len() implies 1 <= #[trigger] g[i] <= cpus.intersect(
        act[e[i].1 as int],
    ).len() by {
        assert(weights[i] == w[e[i].1 as int]);
    }
    if e.len() == 0 {
        assert(g =~= seq![]);
        assert(w =~= seq![]);
    }
}

/// With more groups than active nodes, the nodes' parts cut the mask up.
proof fn lemma_stage_many(
    cpus: Set<int>,
    num: nat,
    possible: Set<int>,
    nodes: Seq<Set<int>>,
    sib: Seq<Set<int>>,
    cluster: Seq<Set<int>>,
)
    requires
        active(cpus, nodes).len() < num <= usize::MAX,
        possible.finite(),
        possible.len() <= usize::MAX,
        cpus.subset_of(possible),
        nodes_cover_once(possible, nodes),
        stage_ready(cpus, num, nodes, cluster),
    ensures
        sets::partition(stage_parts(cpus, num, nodes, sib, cluster), cpus),
        stage_parts(cpus, num, nodes, sib, cluster).len() == if cpus.len() < num {
            cpus.len()
        } else {
            num
        },
        forall|i: int|
            0 <= i < stage_parts(cpus, num, nodes, sib, cluster).len() ==> inside_one(
                #[trigger] stage_parts(cpus, num, nodes, sib, cluster)[i],
                active(cpus, nodes),
            ),
        none_empty(stage_parts(cpus, num, nodes, sib, cluster)),
{
    let act = active(cpus, nodes);
    let w = weights_in(cpus, act);
    let e = order::ranked(entries(w), false);
    let wanted = if sets::total(w) <= num {
        sets::total(w)
    } else {
        num
    };
    let g = shares(entry_weights(e), wanted, sets::total(w));
    assert(cpus.finite() && cpus.len() <= usize::MAX && sets::total(w) == cpus.len() && w.len()
        == act.len() && act.len() <= cpus.len() && sets::apart(clipped(cpus, act))
        && sets::together(clipped(cpus, act)) == cpus) by {
        lemma_stage_nodes(cpus, possible, nodes);
    }
    assert(shared_out(cpus, act, e, g, wanted)) by {
        lemma_stage_nodes(cpus, possible, nodes);
        lemma_shared_out(cpus, act, wanted);
    }
    assert(unique_indices(e) && covered(cpus, act, e) == cpus) by {
        lemma_all_covered(cpus, act, w, e);
    }
    lemma_parts_of_nodes(cpus, act, e, g, sib, cluster);
    assert(stage_parts(cpus, num, nodes, sib, cluster) == parts_of_nodes(
        cpus,
        act,
        e,
        g,
        sib,
        cluster,
    ));
}

/// One stage deals every CPU of the mask out exactly once, in parts that each
/// hold one, and uses up as many groups as it has CPUs, all groups at most;
/// every part stays inside one node, and with more groups than nodes no group
/// gets two parts.
pub proof fn lemma_stage(
    cpus: Set<int>,
    num: nat,
    possible: Set<int>,
    nodes: Seq<Set<int>>,
    sib: Seq<Set<int>>,
    cluster: Seq<Set<int>>,
)
    requires
        0 < num <= usize::MAX,
        possible.finite(),
        possible.len() <= usize::MAX,
        cpus.subset_of(possible),
        nodes_cover_once(possible, nodes),
        stage_ready(cpus, num, nodes, cluster),
    ensures
        sets::partition(stage_parts(cpus, num, nodes, sib, cluster), cpus),
        stage_used(cpus, num, nodes, sib, cluster) == if cpus.len() < num {
            cpus.len()
        } else {
            num
        },
        forall|i: int|
            0 <= i < stage_parts(cpus, num, nodes, sib, cluster).len() ==> inside_one(
                #[trigger] stage_parts(cpus, num, nodes, sib, cluster)[i],
                nodes,
            ),
        num > active(cpus, nodes).len() ==> stage_parts(cpus, num, nodes, sib, cluster).len()
            <= num,
        none_empty(stage_parts(cpus, num, nodes, sib, cluster)),
{
    let act = active(cpus, nodes);
    let parts = stage_parts(cpus, num, nodes, sib, cluster);
    lemma_stage_nodes(cpus, possible, nodes);
    if num <= act.len() {
        assert(parts =~= clipped(cpus, act));
        assert forall|i: int| 0 <= i < parts.len() implies inside_one(
            #[trigger] parts[i],
            act,
        ) by {
            assert(parts[i].subset_of(act[i]));
        }
        assert forall|i: int| 0 <= i < parts.len() implies #[trigger] parts[i] != Set::<
            int,
        >::empty() by {
            assert(1 <= weights_in(cpus, act)[i]);
            assert(parts[i].len() == weights_in(cpus, act)[i]);
        }
    } else {
        lemma_stage_many(cpus, num, possible, nodes, sib, cluster);
    }
    assert forall|i: int| 0 <= i < parts.len() implies inside_one(#[trigger] parts[i], nodes) by {
        assert(inside_one(parts[i], act));
        lemma_inside_active(parts[i], act, nodes);
    }
}

/// Parts apart from each other and from the groups keep the groups apart.
proof fn lemma_laid_partition(
    groups: Seq<Set<int>>,
    x: Set<int>,
    at: int,
    parts: Seq<Set<int>>,
    y: Set<int>,
)
    requires
        groups.len() > 0,
        sets::partition(groups, x),
        sets::partition(parts, y),
        x.disjoint(y),
    ensures
        sets::partition(laid(groups, at, parts), x.union(y)),
{
    let n = groups.len() as int;
    let r = laid(groups, at, parts);
    lemma_laid_len(groups, at, parts);
    assert forall|c: int| sets::in_some(groups, c) implies x.contains(c) by {
        assert(sets::together(groups).contains(c));
    }
    assert forall|c: int| sets::in_some(parts, c) implies y.contains(c) by {
        assert(sets::together(parts).contains(c));
    }
    assert forall|i: int, j: int, c: int|
        0 <= i < j < r.len() && #[trigger] r[i].contains(c) implies !#[trigger] r[j].contains(c) by {
        lemma_laid_where(groups, at, parts, i, c);
        lemma_laid_where(groups, at, parts, j, c);
        if r[j].contains(c) {
            if groups[i].contains(c) {
                assert(sets::in_some(groups, c));
                if !groups[j].contains(c) {
                    let k = choose|k: int|
                        0 <= k < parts.len() && (#[trigger] parts[k]).contains(c) && (at + k) % n
                            == j;
                    assert(sets::in_some(parts, c));
                }
            } else {
                let k = choose|k: int|
                    0 <= k < parts.len() && (#[trigger] parts[k]).contains(c) && (at + k) % n == i;
                assert(sets::in_some(parts, c));
                if groups[j].contains(c) {
                    assert(sets::in_some(groups, c));
                } else {
                    let l = choose|k: int|
                        0 <= k < parts.len() && (#[trigger] parts[k]).contains(c) && (at + k) % n
                            == j;
                    if k < l {
                        assert(!parts[l].contains(c));
                    } else if l < k {
                        assert(!parts[k].contains(c));
                    }
                }
            }
        }
    }
    assert forall|c: int| sets::in_some(r, c) == (x.contains(c) || y.contains(c)) by {
        if sets::in_some(r, c) {
            let i = choose|i: int| 0 <= i < r.len() && (#[trigger] r[i]).contains(c);
            lemma_laid_where(groups, at, parts, i, c);
            if groups[i].contains(c) {
                assert(sets::in_some(groups, c));
            } else {
                assert(sets::in_some(parts, c));
            }
        }
        if x.contains(c) {
            assert(sets::together(groups).contains(c));
            let i = choose|i: int| 0 <= i < groups.len() && (#[trigger] groups[i]).contains(c);
            lemma_laid_where(groups, at, parts, i, c);
            assert(r[i].contains(c));
        }
        if y.contains(c) {
            assert(sets::together(parts).contains(c));
            let k = choose|k: int| 0 <= k < parts.len() && (#[trigger] parts[k]).contains(c);
            let i = (at + k) % n;
            vstd::arithmetic::div_mod::lemma_mod_bound(at + k, n);
            lemma_laid_where(groups, at, parts, i, c);
            assert(r[i].contains(c));
        }
    }
    assert(sets::together(r) =~= x.union(y));
}

/// A topology whose clusters are equal or apart can be grouped, over any number
/// of groups.
pub proof fn lemma_consistent_topology_ready(
    num: nat,
    possible: Set<int>,
    present: Set<int>,
    nodes: Seq<Set<int>>,
    cluster: Seq<Set<int>>,
)
    requires
        possible.finite(),
        topology::clusters_agree(cluster, possible),
    ensures
        grouping_ready(num, possible, present, nodes, cluster),
{
    let here = present.intersect(possible);
    lemma_consistent_stage_ready(here, num, possible, nodes, cluster);
    lemma_consistent_stage_ready(possible.difference(here), num, possible, nodes, cluster);
}

proof fn lemma_consistent_stage_ready(
    cpus: Set<int>,
    num: nat,
    possible: Set<int>,
    nodes: Seq<Set<int>>,
    cluster: Seq<Set<int>>,
)
    requires
        possible.finite(),
        cpus.subset_of(possible),
        topology::clusters_agree(cluster, possible),
    ensures
        stage_ready(cpus, num, nodes, cluster),
{
    lemma_set_subset_finite(possible, cpus);
    let act = active(cpus, nodes);
    assert forall|n: Set<int>, k: nat| #[trigger]
        node_ready(cpus.intersect(n), k, cluster) by {
        lemma_agreeing_clusters(cpus.intersect(n), cluster, possible);
    }
}

/// The groups cover every possible CPU exactly once, and there are as many as
/// asked for, or one per possible CPU where those are fewer.
pub proof fn lemma_grouping_covers_once(
    num: nat,
    possible: Set<int>,
    present: Set<int>,
    nodes: Seq<Set<int>>,
    sib: Seq<Set<int>>,
    cluster: Seq<Set<int>>,
)
    requires
        0 < num <= usize::MAX,
        possible.finite(),
        possible.len() <= usize::MAX,
        nodes_cover_once(possible, nodes),
        grouping_ready(num, possible, present, nodes, cluster),
    ensures
        sets::partition(grouping(num, possible, present, nodes, sib, cluster), possible),
        grouping(num, possible, present, nodes, sib, cluster).len() == if possible.len() < num {
            possible.len()
        } else {
            num
        },
{
    let n = num as int;
    let here = present.intersect(possible);
    let other = possible.difference(here);
    let p1 = stage_parts(here, num, nodes, sib, cluster);
    let p2 = stage_parts(other, num, nodes, sib, cluster);
    let u1 = stage_used(here, num, nodes, sib, cluster);
    let u2 = stage_used(other, num, nodes, sib, cluster);
    let at = if u1 >= num {
        0
    } else {
        u1 as int
    };
    let none = empty_groups(num);
    let first = laid(none, 0, p1);
    let both = laid(first, at, p2);
    lemma_stage(here, num, possible, nodes, sib, cluster);
    lemma_stage(other, num, possible, nodes, sib, cluster);
    assert(possible =~= here.union(other));
    lemma_set_disjoint_lens(here, other);
    assert(sets::partition(none, Set::empty())) by {
        assert(sets::together(none) =~= Set::empty());
    }
    lemma_laid_partition(none, Set::empty(), 0, p1, here);
    assert(Set::<int>::empty().union(here) =~= here);
    lemma_laid_len(none, 0, p1);
    lemma_laid_partition(first, here, at, p2, other);
    lemma_laid_len(first, at, p2);
    let reached = u1 + u2;
    if reached < num {
        let g = both.take(reached as int);
        // Nothing was laid past the groups reached, so nothing is cut off.
        assert forall|i: int, c: int| reached <= i < n implies !#[trigger] both[i].contains(c) by {
            lemma_laid_where(first, at, p2, i, c);
            lemma_laid_where(none, 0, p1, i, c);
            if exists|k: int|
                0 <= k < p2.len() && (#[trigger] p2[k]).contains(c) && (at + k) % n == i {
                let k = choose|k: int|
                    0 <= k < p2.len() && (#[trigger] p2[k]).contains(c) && (at + k) % n == i;
                vstd::arithmetic::div_mod::lemma_small_mod((at + k) as nat, num);
            }
            if exists|k: int|
                0 <= k < p1.len() && (#[trigger] p1[k]).contains(c) && (0 + k) % n == i {
                let k = choose|k: int|
                    0 <= k < p1.len() && (#[trigger] p1[k]).contains(c) && (0 + k) % n == i;
                vstd::arithmetic::div_mod::lemma_small_mod(k as nat, num);
            }
        }
        assert forall|c: int| sets::in_some(g, c) == possible.contains(c) by {
            if sets::in_some(g, c) {
                let i = choose|i: int| 0 <= i < g.len() && (#[trigger] g[i]).contains(c);
                assert(both[i].contains(c));
                assert(sets::together(both).contains(c));
            }
            if possible.contains(c) {
                assert(sets::together(both).contains(c));
                let i = choose|i: int| 0 <= i < both.len() && (#[trigger] both[i]).contains(c);
                assert(g[i].contains(c));
            }
        }
        assert(sets::together(g) =~= possible);
        assert forall|i: int, j: int, c: int|
            0 <= i < j < g.len() && #[trigger] g[i].contains(c) implies !#[trigger] g[j].contains(
        c) by {
            assert(both[i] == g[i] && both[j] == g[j]);
        }
    } else {
        assert(both.take(n) =~= both);
    }
}

/// Every group holds a CPU: there are never more groups than possible CPUs.
pub proof fn lemma_grouping_none_empty(
    num: nat,
    possible: Set<int>,
    present: Set<int>,
    nodes: Seq<Set<int>>,
    sib: Seq<Set<int>>,
    cluster: Seq<Set<int>>,
)
    requires
        num <= usize::MAX,
        possible.finite(),
        possible.len() <= usize::MAX,
        nodes_cover_once(possible, nodes),
        grouping_ready(num, possible, present, nodes, cluster),
    ensures
        none_empty(grouping(num, possible, present, nodes, sib, cluster)),
{
    if num > 0 {
        let n = num as int;
        let here = present.intersect(possible);
        let other = possible.difference(here);
        let p1 = stage_parts(here, num, nodes, sib, cluster);
        let p2 = stage_parts(other, num, nodes, sib, cluster);
        let u1 = stage_used(here, num, nodes, sib, cluster);
        let u2 = stage_used(other, num, nodes, sib, cluster);
        let at = if u1 >= num {
            0
        } else {
            u1 as int
        };
        let none = empty_groups(num);
        let first = laid(none, 0, p1);
        let both = laid(first, at, p2);
        let r = grouping(num, possible, present, nodes, sib, cluster);
        lemma_stage(here, num, possible, nodes, sib, cluster);
        lemma_stage(other, num, possible, nodes, sib, cluster);
        lemma_laid_len(none, 0, p1);
        lemma_laid_len(first, at, p2);
        assert forall|i: int| 0 <= i < r.len() implies #[trigger] r[i] != Set::<int>::empty() by {
            assert(r[i] == both[i]);
            if i < u1 {
                // A part of the present CPUs went here.
                assert(p1[i] != Set::<int>::empty());
                sets::lemma_some_member(p1[i]);
                let c = choose|c: int| p1[i].contains(c);
                vstd::arithmetic::div_mod::lemma_small_mod(i as nat, num);
                assert((0 + i) % n == i);
                lemma_laid_where(none, 0, p1, i, c);
                lemma_laid_where(first, at, p2, i, c);
                assert(both[i].contains(c));
            } else {
                let k = i - u1;
                assert(p2[k] != Set::<int>::empty());
                sets::lemma_some_member(p2[k]);
                let c = choose|c: int| p2[k].contains(c);
                vstd::arithmetic::div_mod::lemma_small_mod(i as nat, num);
                assert((at + k) % n == i);
                lemma_laid_where(first, at, p2, i, c);
                assert(both[i].contains(c));
            }
        }
    }
}

/// With every possible CPU present and at least as many groups as nodes, every
/// group stays inside one node.
pub proof fn lemma_grouping_node_pure(
    num: nat,
    possible: Set<int>,
    present: Set<int>,
    nodes: Seq<Set<int>>,
    sib: Seq<Set<int>>,
    cluster: Seq<Set<int>>,
    i: int,
)
    requires
        0 < num <= usize::MAX,
        possible.finite(),
        0 < possible.len() <= usize::MAX,
        possible.subset_of(present),
        nodes_cover_once(possible, nodes),
        grouping_ready(num, possible, present, nodes, cluster),
        active(possible, nodes).len() <= num,
        0 <= i < grouping(num, possible, present, nodes, sib, cluster).len(),
    ensures
        inside_one(grouping(num, possible, present, nodes, sib, cluster)[i], nodes),
{
    let n = num as int;
    let here = present.intersect(possible);
    let other = possible.difference(here);
    assert(here =~= possible);
    assert(other =~= Set::empty());
    let p1 = stage_parts(here, num, nodes, sib, cluster);
    let p2 = stage_parts(other, num, nodes, sib, cluster);
    let u1 = stage_used(here, num, nodes, sib, cluster);
    let at = if u1 >= num {
        0
    } else {
        u1 as int
    };
    let none = empty_groups(num);
    let first = laid(none, 0, p1);
    let both = laid(first, at, p2);
    lemma_stage(here, num, possible, nodes, sib, cluster);
    lemma_stage(other, num, possible, nodes, sib, cluster);
    lemma_laid_len(none, 0, p1);
    lemma_laid_len(first, at, p2);
    assert(p1.len() <= num);
    let g = grouping(num, possible, present, nodes, sib, cluster);
    assert(g[i] == both[i]);
    let c0 = if g[i] == Set::<int>::empty() {
        0
    } else {
        sets::lemma_some_member(g[i])
    };
    if g[i] == Set::<int>::empty() {
        let c = sets::lemma_some_member(possible);
        assert(sets::together(clipped(possible, nodes)).contains(c));
        let k = choose|k: int|
            0 <= k < clipped(possible, nodes).len() && (#[trigger] clipped(
                possible,
                nodes,
            )[k]).contains(c);
        assert(g[i].subset_of(nodes[k]));
    } else {
        let src = lemma_where_from(none, p1, p2, at, i, c0);
        assert(inside_one(p1[src], nodes));
        let k = choose|k: int| 0 <= k < nodes.len() && p1[src].subset_of(#[trigger] nodes[k]);
        assert forall|c: int| g[i].contains(c) implies nodes[k].contains(c) by {
            let s2 = lemma_where_from(none, p1, p2, at, i, c);
            assert(s2 == src);
            assert(p1[src].contains(c));
        }
        assert(g[i].subset_of(nodes[k]));
    }
}

/// With no wrapping and an empty second stage, group `i` is part `i`.
proof fn lemma_where_from(
    none: Seq<Set<int>>,
    p1: Seq<Set<int>>,
    p2: Seq<Set<int>>,
    at: int,
    i: int,
    c: int,
) -> (k: int)
    requires
        none.len() > 0,
        forall|j: int| 0 <= j < none.len() ==> (#[trigger] none[j]) == Set::<int>::empty(),
        p1.len() <= none.len(),
        sets::partition(p2, Set::empty()),
        0 <= i < none.len(),
        laid(laid(none, 0, p1), at, p2)[i].contains(c),
    ensures
        k == i,
        0 <= k < p1.len(),
        p1[k].contains(c),
{
    let n = none.len() as int;
    lemma_laid_len(none, 0, p1);
    lemma_laid_where(laid(none, 0, p1), at, p2, i, c);
    lemma_laid_where(none, 0, p1, i, c);
    if exists|k: int| 0 <= k < p2.len() && (#[trigger] p2[k]).contains(c) && (at + k) % n == i {
        let k = choose|k: int|
            0 <= k < p2.len() && (#[trigger] p2[k]).contains(c) && (at + k) % n == i;
        assert(sets::together(p2).contains(c));
    }
    assert(none[i] == Set::<int>::empty());
    let k = choose|k: int|
        0 <= k < p1.len() && (#[trigger] p1[k]).contains(c) && (0 + k) % n == i;
    vstd::arithmetic::div_mod::lemma_small_mod(k as nat, n as nat);
    k
}

// ---------------------------------------------------------------------------
// Clusters and siblings stay together
// ---------------------------------------------------------------------------

/// Whether `part` lies in the cluster of some CPU.
pub open spec fn in_a_cluster(part: Set<int>, cluster: Seq<Set<int>>) -> bool {
    exists|d: int| part.subset_of(#[trigger] topology::mask_of(cluster, d))
}

/// Whether a node's CPUs are dealt cluster by cluster over `k` groups: every
/// CPU's cluster is known, and there are no more clusters than groups.
pub open spec fn by_clusters(cpus: Set<int>, k: nat, cluster: Seq<Set<int>>) -> bool {
    clusters_of(cpus, cluster) matches Some(cl) && 0 < cl.len() <= k
}

/// The parts of areas each lie in one of them.
proof fn lemma_area_parts_inside(
    cpus: Set<int>,
    areas: Seq<Set<int>>,
    e: Seq<(u128, usize)>,
    g: Seq<nat>,
    sib: Seq<Set<int>>,
)
    requires
        cpus.finite(),
        e.len() == g.len(),
        forall|i: int| 0 <= i < e.len() ==> (#[trigger] e[i]).1 < areas.len(),
        forall|i: int| 0 <= i < g.len() ==> 1 <= #[trigger] g[i],
    ensures
        forall|i: int|
            0 <= i < parts_of_areas(cpus, areas, e, g, sib).len() ==> inside_one(
                #[trigger] parts_of_areas(cpus, areas, e, g, sib)[i],
                areas,
            ),
    decreases e.len(),
{
    if e.len() > 0 {
        let init = e.drop_last();
        let ginit = g.drop_last();
        assert forall|i: int| 0 <= i < init.len() implies (#[trigger] init[i]).1
            < areas.len() by {
            assert(init[i] == e[i]);
        }
        assert forall|i: int| 0 <= i < ginit.len() implies 1 <= #[trigger] ginit[i] by {
            assert(ginit[i] == g[i]);
        }
        lemma_area_parts_inside(cpus, areas, init, ginit, sib);
        let before = parts_of_areas(cpus, areas, init, ginit, sib);
        let at = e[e.len() - 1].1 as int;
        let a = cpus.intersect(areas[at]);
        assert(1 <= g[g.len() - 1]);
        lemma_dealt_from_inside(a, a.len(), g.last(), 0, sib);
        let add = dealt(a, g.last(), sib);
        let all = parts_of_areas(cpus, areas, e, g, sib);
        assert forall|i: int| 0 <= i < all.len() implies inside_one(#[trigger] all[i], areas) by {
            if i < before.len() {
                assert(all[i] == before[i]);
            } else {
                assert(all[i] == add[i - before.len()]);
                assert(all[i].subset_of(areas[at]));
            }
        }
    }
}

/// A node that is dealt cluster by cluster has each part inside one cluster.
pub proof fn lemma_node_parts_in_clusters(
    cpus: Set<int>,
    k: nat,
    sib: Seq<Set<int>>,
    cluster: Seq<Set<int>>,
)
    requires
        cpus.finite(),
        cpus.len() <= usize::MAX,
        node_ready(cpus, k, cluster),
        0 < k <= cpus.len(),
        by_clusters(cpus, k, cluster),
    ensures
        forall|i: int|
            0 <= i < node_parts(cpus, k, sib, cluster).len() ==> in_a_cluster(
                #[trigger] node_parts(cpus, k, sib, cluster)[i],
                cluster,
            ),
{
    let cl = clusters_of(cpus, cluster)->0;
    let w = weights_in(cpus, cl);
    lemma_clusters(cpus, cluster);
    sets::lemma_partition_len(clipped(cpus, cl), cpus);
    assert(clipped(cpus, cl).map_values(|p: Set<int>| p.len()) =~= w);
    assert forall|i: int| 0 <= i < w.len() implies 1 <= #[trigger] w[i] <= usize::MAX by {
        assert(0 < cpus.intersect(cl[i]).len());
        lemma_len_subset(cpus.intersect(cl[i]), cpus);
    }
    lemma_ranked_weights(w);
    let e = order::ranked(entries(w), false);
    lemma_shares(entry_weights(e), k, cpus.len());
    let g = shares(entry_weights(e), k, cpus.len());
    lemma_area_parts_inside(cpus, cl, e, g, sib);
    let parts = node_parts(cpus, k, sib, cluster);
    assert forall|i: int| 0 <= i < parts.len() implies in_a_cluster(
        #[trigger] parts[i],
        cluster,
    ) by {
        assert(inside_one(parts[i], cl));
        let j = choose|j: int| 0 <= j < cl.len() && parts[i].subset_of(#[trigger] cl[j]);
        assert(is_cluster(cl[j], cpus, cluster));
        let d = choose|d: int|
            cpus.contains(d) && cl[j] == topology::mask_of(cluster, d) && #[trigger] cl[j].contains(
                d,
            );
        assert(parts[i].subset_of(topology::mask_of(cluster, d)));
    }
}

proof fn lemma_parts_of_nodes_in_clusters(
    cpus: Set<int>,
    nodes: Seq<Set<int>>,
    e: Seq<(u128, usize)>,
    g: Seq<nat>,
    sib: Seq<Set<int>>,
    cluster: Seq<Set<int>>,
)
    requires
        cpus.finite(),
        cpus.len() <= usize::MAX,
        nodes_ready(cpus, nodes, e, g, cluster),
        e.len() == g.len(),
        forall|i: int|
            0 <= i < e.len() ==> by_clusters(
                cpus.intersect(nodes[(#[trigger] e[i]).1 as int]),
                g[i],
                cluster,
            ),
        forall|i: int|
            0 <= i < g.len() ==> 1 <= #[trigger] g[i] <= cpus.intersect(
                nodes[e[i].1 as int],
            ).len(),
    ensures
        forall|i: int|
            0 <= i < parts_of_nodes(cpus, nodes, e, g, sib, cluster).len() ==> in_a_cluster(
                #[trigger] parts_of_nodes(cpus, nodes, e, g, sib, cluster)[i],
                cluster,
            ),
    decreases e.len(),
{
    if e.len() > 0 {
        let n = e.len() - 1;
        let init = e.drop_last();
        let ginit = g.drop_last();
        assert forall|i: int| 0 <= i < init.len() implies by_clusters(
            cpus.intersect(nodes[(#[trigger] init[i]).1 as int]),
            ginit[i],
            cluster,
        ) && node_ready(cpus.intersect(nodes[init[i].1 as int]), ginit[i], cluster) by {
            assert(init[i] == e[i] && ginit[i] == g[i]);
        }
        assert forall|i: int| 0 <= i < ginit.len() implies 1 <= #[trigger] ginit[i]
            <= cpus.intersect(nodes[init[i].1 as int]).len() by {
            assert(init[i] == e[i] && ginit[i] == g[i]);
        }
        lemma_parts_of_nodes_in_clusters(cpus, nodes, init, ginit, sib, cluster);
        let before = parts_of_nodes(cpus, nodes, init, ginit, sib, cluster);
        let a = cpus.intersect(nodes[e[n].1 as int]);
        assert(1 <= g[n] <= a.len());
        lemma_len_subset(a, cpus);
        assert(node_ready(cpus.intersect(nodes[e[n].1 as int]), g[n], cluster));
        lemma_node_parts_in_clusters(a, g.last(), sib, cluster);
        let add = node_parts(a, g.last(), sib, cluster);
        let all = parts_of_nodes(cpus, nodes, e, g, sib, cluster);
        assert forall|i: int| 0 <= i < all.len() implies in_a_cluster(
            #[trigger] all[i],
            cluster,
        ) by {
            if i < before.len() {
                assert(all[i] == before[i]);
            } else {
                assert(all[i] == add[i - before.len()]);
            }
        }
    }
}

/// Whether every node has its clusters known, and gets at least as many of the
/// `num` groups as it has clusters.
pub open spec fn clusters_fit(
    cpus: Set<int>,
    num: nat,
    nodes: Seq<Set<int>>,
    cluster: Seq<Set<int>>,
) -> bool {
    let act = active(cpus, nodes);
    let w = weights_in(cpus, act);
    let e = order::ranked(entries(w), false);
    let g = shares(
        entry_weights(e),
        if sets::total(w) <= num {
            sets::total(w)
        } else {
            num
        },
        sets::total(w),
    );
    forall|i: int|
        0 <= i < e.len() ==> by_clusters(
            cpus.intersect(act[(#[trigger] e[i]).1 as int]),
            g[i],
            cluster,
        )
}

/// Groups are kept cluster-aligned when possible: with every possible CPU
/// present, more groups than nodes, and in each node no more clusters than the
/// groups it gets, every group stays inside one cluster.
pub proof fn lemma_grouping_cluster_pure(
    num: nat,
    possible: Set<int>,
    present: Set<int>,
    nodes: Seq<Set<int>>,
    sib: Seq<Set<int>>,
    cluster: Seq<Set<int>>,
    i: int,
)
    requires
        0 < num <= usize::MAX,
        possible.finite(),
        0 < possible.len() <= usize::MAX,
        possible.subset_of(present),
        nodes_cover_once(possible, nodes),
        grouping_ready(num, possible, present, nodes, cluster),
        active(possible, nodes).len() < num,
        clusters_fit(possible, num, nodes, cluster),
        0 <= i < grouping(num, possible, present, nodes, sib, cluster).len(),
    ensures
        in_a_cluster(grouping(num, possible, present, nodes, sib, cluster)[i], cluster),
{
    let here = present.intersect(possible);
    let other = possible.difference(here);
    assert(here =~= possible);
    assert(other =~= Set::empty());
    let p1 = stage_parts(here, num, nodes, sib, cluster);
    let p2 = stage_parts(other, num, nodes, sib, cluster);
    let u1 = stage_used(here, num, nodes, sib, cluster);
    let at = if u1 >= num {
        0
    } else {
        u1 as int
    };
    let none = empty_groups(num);
    let first = laid(none, 0, p1);
    let both = laid(first, at, p2);
    lemma_stage(here, num, possible, nodes, sib, cluster);
    lemma_stage(other, num, possible, nodes, sib, cluster);
    lemma_laid_len(none, 0, p1);
    lemma_laid_len(first, at, p2);
    let group = grouping(num, possible, present, nodes, sib, cluster)[i];
    assert(group == both[i]);
    if group == Set::<int>::empty() {
        assert(group.subset_of(topology::mask_of(cluster, 0)));
    } else {
        let c0 = sets::lemma_some_member(group);
        let k0 = lemma_where_from(none, p1, p2, at, i, c0);
        lemma_stage_in_clusters(possible, num, possible, nodes, sib, cluster);
        assert(in_a_cluster(p1[i], cluster));
        let d = choose|d: int| p1[i].subset_of(#[trigger] topology::mask_of(cluster, d));
        assert forall|c: int| group.contains(c) implies topology::mask_of(cluster, d).contains(
            c,
        ) by {
            let k = lemma_where_from(none, p1, p2, at, i, c);
            assert(p1[i].contains(c));
        }
        assert(group.subset_of(topology::mask_of(cluster, d)));
    }
}

proof fn lemma_stage_in_clusters(
    cpus: Set<int>,
    num: nat,
    possible: Set<int>,
    nodes: Seq<Set<int>>,
    sib: Seq<Set<int>>,
    cluster: Seq<Set<int>>,
)
    requires
        0 < num <= usize::MAX,
        possible.finite(),
        possible.len() <= usize::MAX,
        cpus.subset_of(possible),
        nodes_cover_once(possible, nodes),
        stage_ready(cpus, num, nodes, cluster),
        active(cpus, nodes).len() < num,
        clusters_fit(cpus, num, nodes, cluster),
    ensures
        forall|i: int|
            0 <= i < stage_parts(cpus, num, nodes, sib, cluster).len() ==> in_a_cluster(
                #[trigger] stage_parts(cpus, num, nodes, sib, cluster)[i],
                cluster,
            ),
{
    let act = active(cpus, nodes);
    let w = weights_in(cpus, act);
    lemma_stage_nodes(cpus, possible, nodes);
    lemma_set_subset_finite(possible, cpus);
    lemma_len_subset(cpus, possible);
    assert forall|i: int| 0 <= i < w.len() implies 1 <= #[trigger] w[i] <= usize::MAX by {
        lemma_len_subset(cpus.intersect(act[i]), cpus);
    }
    lemma_ranked_weights(w);
    sets::lemma_total_bounds(w, 1);
    assert(w.len() * 1 == w.len());
    let e = order::ranked(entries(w), false);
    let want = if sets::total(w) <= num {
        sets::total(w)
    } else {
        num
    };
    let g = shares(entry_weights(e), want, sets::total(w));
    lemma_shares(entry_weights(e), want, sets::total(w));
    assert forall|i: int| 0 <= i < g.len() implies 1 <= #[trigger] g[i] <= cpus.intersect(
        act[e[i].1 as int],
    ).len() by {
        assert(entry_weights(e)[i] == w[e[i].1 as int]);
    }
    lemma_parts_of_nodes_in_clusters(cpus, act, e, g, sib, cluster);
}

/// Whether `m` is one SMT sibling set among `cpus`, or has none of them: each of
/// its CPUs has just `m` for siblings there, and no other CPU has one of them.
pub open spec fn siblings_in(m: Set<int>, cpus: Set<int>, sib: Seq<Set<int>>) -> bool {
    &&& m.subset_of(cpus)
    &&& forall|c: int|
        m.contains(c) ==> (#[trigger] topology::mask_of(sib, c)).intersect(cpus) == m
    &&& forall|c: int|
        cpus.contains(c) && !m.contains(c) ==> (#[trigger] topology::mask_of(sib, c)).disjoint(m)
}

/// What is left of a sibling set is a sibling set of what is left.
proof fn lemma_siblings_left(m: Set<int>, cpus: Set<int>, sib: Seq<Set<int>>, gone: Set<int>)
    requires
        siblings_in(m, cpus, sib),
    ensures
        siblings_in(m.difference(gone), cpus.difference(gone), sib),
{
    let n = m.difference(gone);
    let left = cpus.difference(gone);
    assert forall|c: int| n.contains(c) implies (#[trigger] topology::mask_of(sib, c)).intersect(
        left,
    ) == n by {
        let all = topology::mask_of(sib, c).intersect(cpus);
        assert(all == m);
        assert forall|x: int| topology::mask_of(sib, c).intersect(left).contains(x) == n.contains(
            x,
        ) by {
            assert(all.contains(x) == m.contains(x));
        }
        assert(topology::mask_of(sib, c).intersect(left) =~= n);
    }
    assert forall|c: int| left.contains(c) && !n.contains(c) implies (#[trigger] topology::mask_of(
        sib,
        c,
    )).disjoint(n) by {
        assert(!m.contains(c));
        assert(topology::mask_of(sib, c).disjoint(m));
    }
}

/// Taking cuts through one sibling set at most: of two that have no CPU in
/// common one is taken whole or not at all.
proof fn lemma_taken_cuts_one(
    from: Set<int>,
    k: nat,
    sib: Seq<Set<int>>,
    a: Set<int>,
    b: Set<int>,
)
    requires
        from.finite(),
        siblings_in(a, from, sib),
        siblings_in(b, from, sib),
        a.disjoint(b),
    ensures
        ({
            let t = taken(from, k, sib);
            a.subset_of(t) || a.disjoint(t) || b.subset_of(t) || b.disjoint(t)
        }),
    decreases k,
{
    if k == 0 || from == Set::<int>::empty() {
    } else {
        sets::lemma_least(from);
        lemma_taken_at_once(from, k, sib);
        let c = sets::least(from);
        let m = taken_at_once(from, k, sib);
        let rest = from.difference(m);
        let more = taken(rest, (k - m.len()) as nat, sib);
        lemma_taken(rest, (k - m.len()) as nat, sib);
        if a.contains(c) {
            lemma_first_taken(from, k, sib, a);
            if a.len() > k {
                assert(more =~= Set::empty());
                assert(b.disjoint(taken(from, k, sib)));
            }
        } else if b.contains(c) {
            lemma_first_taken(from, k, sib, b);
            if b.len() > k {
                assert(more =~= Set::empty());
                assert(a.disjoint(taken(from, k, sib)));
            }
        } else {
            lemma_first_misses(from, k, sib, a);
            lemma_first_misses(from, k, sib, b);
            lemma_siblings_left(a, from, sib, m);
            lemma_siblings_left(b, from, sib, m);
            assert(a.difference(m) =~= a && b.difference(m) =~= b);
            lemma_taken_cuts_one(rest, (k - m.len()) as nat, sib, a, b);
        }
    }
}

/// The sibling set of the lowest CPU is taken first, as much of it as fits.
proof fn lemma_first_taken(from: Set<int>, k: nat, sib: Seq<Set<int>>, a: Set<int>)
    requires
        from.finite(),
        from != Set::<int>::empty(),
        k > 0,
        siblings_in(a, from, sib),
        a.contains(sets::least(from)),
    ensures
        taken_at_once(from, k, sib).subset_of(a),
        a.len() <= k ==> taken_at_once(from, k, sib) == a,
        a.len() > k ==> taken_at_once(from, k, sib).len() == k,
{
    let c = sets::least(from);
    let kin = from.remove(c).intersect(topology::mask_of(sib, c));
    sets::lemma_least(from);
    lemma_set_subset_finite(from, a);
    let all = topology::mask_of(sib, c).intersect(from);
    assert(all == a);
    assert(kin =~= a.remove(c)) by {
        assert forall|x: int| kin.contains(x) == a.remove(c).contains(x) by {
            assert(all.contains(x) == a.contains(x));
        }
    }
    sets::lemma_lowest(kin, (k - 1) as nat);
    assert(a =~= kin.insert(c));
}

/// A sibling set without the lowest CPU is left alone at first.
proof fn lemma_first_misses(from: Set<int>, k: nat, sib: Seq<Set<int>>, a: Set<int>)
    requires
        from.finite(),
        from != Set::<int>::empty(),
        k > 0,
        siblings_in(a, from, sib),
        !a.contains(sets::least(from)),
    ensures
        a.disjoint(taken_at_once(from, k, sib)),
{
    let c = sets::least(from);
    let kin = from.remove(c).intersect(topology::mask_of(sib, c));
    sets::lemma_least(from);
    sets::lemma_lowest(kin, (k - 1) as nat);
    assert(topology::mask_of(sib, c).disjoint(a));
    assert forall|x: int| taken_at_once(from, k, sib).contains(x) implies !a.contains(x) by {
        if x != c {
            assert(kin.contains(x));
        }
    }
}

/// Whether sibling set `a` is in part `i` and in a later one.
pub open spec fn continued(parts: Seq<Set<int>>, a: Set<int>, i: int) -> bool {
    &&& !a.disjoint(parts[i])
    &&& exists|j: int| i < j < parts.len() && !a.disjoint(#[trigger] parts[j])
}

/// CPUs are dealt sibling-first, so that hyperthreads land in the same part: of
/// all sibling sets one part shares at most one with the parts after it.
pub proof fn lemma_dealt_keeps_siblings(
    cpus: Set<int>,
    k: nat,
    sib: Seq<Set<int>>,
    a: Set<int>,
    b: Set<int>,
    i: int,
)
    requires
        cpus.finite(),
        0 < k,
        siblings_in(a, cpus, sib),
        siblings_in(b, cpus, sib),
        a.disjoint(b),
        0 <= i < k,
    ensures
        !(continued(dealt(cpus, k, sib), a, i) && continued(dealt(cpus, k, sib), b, i)),
{
    assert(0 * (cpus.len() / k) == 0);
    lemma_dealt_from_keeps_siblings(cpus, cpus.len(), k, 0, sib, a, b, i);
}

proof fn lemma_dealt_from_keeps_siblings(
    left: Set<int>,
    n: nat,
    k: nat,
    j: nat,
    sib: Seq<Set<int>>,
    a: Set<int>,
    b: Set<int>,
    i: int,
)
    requires
        left.finite(),
        j <= k,
        siblings_in(a, left, sib),
        siblings_in(b, left, sib),
        a.disjoint(b),
        0 <= i < k - j,
    ensures
        dealt_from(left, n, k, j, sib).len() == k - j,
        !(continued(dealt_from(left, n, k, j, sib), a, i) && continued(
            dealt_from(left, n, k, j, sib),
            b,
            i,
        )),
    decreases k - j,
{
    let size = even_part(n, k, j as int);
    let p = taken(left, size, sib);
    let rest = left.difference(p);
    let tail = dealt_from(rest, n, k, j + 1, sib);
    let all = dealt_from(left, n, k, j, sib);
    lemma_taken(left, size, sib);
    lemma_dealt_from_inside(rest, n, k, j + 1, sib);
    assert forall|x: int| 0 <= x < tail.len() implies #[trigger] all[x + 1] == tail[x] by {}
    if i == 0 {
        lemma_taken_cuts_one(left, size, sib, a, b);
        if continued(all, a, 0) {
            let x = choose|x: int| 0 < x < all.len() && !a.disjoint(#[trigger] all[x]);
            assert(all[x] == tail[x - 1]);
            assert(tail[x - 1].subset_of(rest));
            if a.subset_of(p) {
                assert(a.disjoint(all[x]));
            }
        }
        if continued(all, b, 0) {
            let x = choose|x: int| 0 < x < all.len() && !b.disjoint(#[trigger] all[x]);
            assert(all[x] == tail[x - 1]);
            assert(tail[x - 1].subset_of(rest));
            if b.subset_of(p) {
                assert(b.disjoint(all[x]));
            }
        }
    } else {
        let a2 = a.difference(p);
        let b2 = b.difference(p);
        lemma_siblings_left(a, left, sib, p);
        lemma_siblings_left(b, left, sib, p);
        lemma_dealt_from_keeps_siblings(rest, n, k, j + 1, sib, a2, b2, i - 1);
        assert forall|x: int| 0 <= x < tail.len() implies a.disjoint(#[trigger] tail[x])
            == a2.disjoint(tail[x]) && b.disjoint(tail[x]) == b2.disjoint(tail[x]) by {
            assert(tail[x].subset_of(rest));
            lemma_disjoint_left(a, p, tail[x]);
            lemma_disjoint_left(b, p, tail[x]);
        }
        assert(all[i] == tail[i - 1]);
        if continued(all, a, i) {
            let x = choose|x: int| i < x < all.len() && !a.disjoint(#[trigger] all[x]);
            assert(all[x] == tail[x - 1]);
            assert(continued(tail, a2, i - 1));
        }
        if continued(all, b, i) {
            let x = choose|x: int| i < x < all.len() && !b.disjoint(#[trigger] all[x]);
            assert(all[x] == tail[x - 1]);
            assert(continued(tail, b2, i - 1));
        }
    }
}

proof fn lemma_disjoint_left(a: Set<int>, p: Set<int>, t: Set<int>)
    requires
        t.disjoint(p),
    ensures
        a.disjoint(t) == a.difference(p).disjoint(t),
{
    if a.difference(p).disjoint(t) {
        assert forall|x: int| a.contains(x) implies !t.contains(x) by {
            if t.contains(x) {
                assert(a.difference(p).contains(x));
            }
        }
    }
}

proof fn lemma_dealt_from_inside(left: Set<int>, n: nat, k: nat, j: nat, sib: Seq<Set<int>>)
    requires
        left.finite(),
    ensures
        dealt_from(left, n, k, j, sib).len() == if j <= k {
            k - j
        } else {
            0
        },
        forall|i: int|
            0 <= i < dealt_from(left, n, k, j, sib).len() ==> (#[trigger] dealt_from(
                left,
                n,
                k,
                j,
                sib,
            )[i]).subset_of(left),
    decreases k - j,
{
    if j < k {
        let p = taken(left, even_part(n, k, j as int), sib);
        lemma_taken(left, even_part(n, k, j as int), sib);
        lemma_dealt_from_inside(left.difference(p), n, k, j + 1, sib);
        let all = dealt_from(left, n, k, j, sib);
        assert forall|i: int| 0 <= i < all.len() implies (#[trigger] all[i]).subset_of(left) by {
            if i > 0 {
                assert(all[i] == dealt_from(left.difference(p), n, k, j + 1, sib)[i - 1]);
            }
        }
    }
}

// ---------------------------------------------------------------------------
// Even, lowest first, in proportion
// ---------------------------------------------------------------------------

/// The parts of an even split differ by one at most, and none is larger than one
/// before it.
pub proof fn lemma_even_parts(n: nat, k: nat, i: int, j: int)
    requires
        0 < k,
        0 <= i <= j,
    ensures
        even_part(n, k, j) <= even_part(n, k, i) <= even_part(n, k, j) + 1,
        even_part(n, k, i) * k <= n + k,
        n < even_part(n, k, i) * k + k,
{
    let q = n / k;
    vstd::arithmetic::div_mod::lemma_fundamental_div_mod(n as int, k as int);
    assert(n % k < k);
    let e = even_part(n, k, i);
    assert(q * k == k * q) by (nonlinear_arith);
    assert((q + 1) * k == q * k + k) by (nonlinear_arith);
    assert(e == q || e == q + 1);
}

/// What is taken first is the lowest CPU there is; where no CPU has siblings, a
/// CPU that is taken leaves no lower one behind.
pub proof fn lemma_taken_lowest(from: Set<int>, k: nat, sib: Seq<Set<int>>, c: int, d: int)
    requires
        from.finite(),
        from.contains(c),
    ensures
        k > 0 ==> exists|m: int| #[trigger]
            taken(from, k, sib).contains(m) && forall|x: int| #[trigger]
                from.contains(x) ==> m <= x,
        (forall|x: int| topology::mask_of(sib, x) == Set::<int>::empty()) && c < d && taken(
            from,
            k,
            sib,
        ).contains(d) ==> taken(from, k, sib).contains(c),
    decreases k,
{
    if k > 0 {
        assert(from != Set::<int>::empty());
        sets::lemma_least(from);
        lemma_taken_at_once(from, k, sib);
        let l = sets::least(from);
        let m = taken_at_once(from, k, sib);
        assert(m.contains(l));
        assert(taken(from, k, sib).contains(l));
        if (forall|x: int| topology::mask_of(sib, x) == Set::<int>::empty()) && c < d && taken(
            from,
            k,
            sib,
        ).contains(d) && c != l {
            assert(topology::mask_of(sib, l) == Set::<int>::empty());
            let near = from.remove(l).intersect(topology::mask_of(sib, l));
            assert(near =~= Set::empty());
            sets::lemma_lowest(near, (k - 1) as nat);
            assert(m =~= Set::<int>::empty().insert(l));
            assert(d != l);
            let rest = from.difference(m);
            assert(rest.contains(c));
            lemma_taken_lowest(rest, (k - m.len()) as nat, sib, c, d);
        }
    }
}

/// A share is the whole part of its proportion, but one at least.
pub proof fn lemma_share_in_proportion(weight: nat, num: nat, left: nat)
    requires
        left > 0,
    ensures
        share(weight, num, left) >= 1,
        num * weight < (share(weight, num, left) + 1) * left,
        share(weight, num, left) > 1 ==> share(weight, num, left) * left <= num * weight,
{
    let a = (num * weight) as int;
    let l = left as int;
    let q = a / l;
    vstd::arithmetic::div_mod::lemma_fundamental_div_mod(a, l);
    assert(l * q == q * l) by (nonlinear_arith);
    assert((q + 1) * l == q * l + l) by (nonlinear_arith);
    assert(0 <= a) by (nonlinear_arith)
        requires
            a == num * weight,
    ;
    assert(0 <= q) by {
        vstd::arithmetic::div_mod::lemma_div_pos_is_pos(a, l);
    }
    if q < 1 {
        assert((1 + 1) * l == 2 * l);
    }
}

} // verus!
