//! Cluster ANA: which of a subsystem's volumes live in the zone this target
//! talks to.

use vstd::prelude::*;

use crate::backend::Backend;
use crate::harness::paths;
use crate::harness::port::ClusterNs;
use crate::nstable::AnaState;
use crate::subsystem::Subsystem;

verus! {

/// A cluster's answer about the placement of some volumes.
#[derive(Debug, PartialEq, Eq)]
pub struct ClusterAnaState {
    /// The cluster's zones.
    pub zones: Vec<u32>,
    /// The zone that owns each volume's placement, where the ring resolves one.
    pub grpids: Vec<Option<u32>>,
    /// The zone of the gateway that was asked.
    pub own_zone: Option<u32>,
}

/// The ANA state of a namespace in the zone `grpid`, through a gateway in `own`.
pub open spec fn state_in(grpid: u32, own: Option<u32>) -> AnaState {
    AnaState { grpid, optimized: own == Some(grpid) }
}

/// The ANA states with the namespace of `cell` placed in `grpid`; a group the
/// ring could not resolve leaves it where it was.
pub open spec fn placed(
    book: Seq<AnaState>,
    cell: usize,
    grpid: Option<u32>,
    own: Option<u32>,
) -> Seq<AnaState> {
    match grpid {
        Some(g) => book.update(cell as int, state_in(g, own)),
        None => book,
    }
}

/// The ANA states with the first `k` namespaces of `v` placed.
pub open spec fn placed_all(
    book: Seq<AnaState>,
    v: Seq<ClusterNs>,
    g: Seq<Option<u32>>,
    own: Option<u32>,
    k: nat,
) -> Seq<AnaState>
    decreases k,
{
    if k == 0 {
        book
    } else {
        placed(placed_all(book, v, g, own, (k - 1) as nat), v[k - 1].cell, g[k - 1], own)
    }
}

/// Which of the first `k` placements changed anything.
pub open spec fn moved(
    book: Seq<AnaState>,
    v: Seq<ClusterNs>,
    g: Seq<Option<u32>>,
    own: Option<u32>,
    k: nat,
) -> Seq<usize>
    decreases k,
{
    if k == 0 {
        seq![]
    } else {
        let rest = moved(book, v, g, own, (k - 1) as nat);
        let now = placed_all(book, v, g, own, (k - 1) as nat);
        if g[k - 1] is Some && now[v[k - 1].cell as int] != state_in(g[k - 1]->0, own) {
            rest.push((k - 1) as usize)
        } else {
            rest
        }
    }
}

/// `c` after `n` bumps.
pub open spec fn bumped(c: u64, n: nat) -> u64
    decreases n,
{
    if n == 0 {
        c
    } else {
        bumped(c, (n - 1) as nat).wrapping_add(1)
    }
}

/// Whether a zone of `zones` is new to `known`.
pub open spec fn zone_news(known: Seq<u32>, zones: Seq<u32>) -> bool {
    !zones.to_set().subset_of(known.to_set())
}

/// What taking up a placement changed.
#[derive(Debug, PartialEq, Eq)]
pub struct AnaChange {
    /// The hosts are to be told: a namespace moved, or there is a new zone.
    pub changed: bool,
    /// The namespaces that moved, by their place.
    pub moved: Vec<usize>,
}

/// Take up the placement of a subsystem's cluster namespaces: each volume's
/// group is the zone of the cluster that owns its inode object's placement —
/// the same value however many targets ask, and through whichever gateway — and
/// this target's path to that group is optimized exactly when the gateway it
/// talks to is itself in that zone.
///
/// Returns what changed, which the hosts are then told of.
pub fn refresh_cluster_ana<B: Backend>(
    namespaces: &Vec<ClusterNs>,
    state: &ClusterAnaState,
    s: &mut Subsystem<B>,
) -> (r: AnaChange)
    requires
        old(s).wf(),
        forall|i: int|
            0 <= i < namespaces@.len() ==> (#[trigger] namespaces@[i]).cell < old(
                s,
            ).ana_states@.len(),
    ensures
        final(s).wf(),
        ({
            let n = paths::paired(namespaces@.len(), state.grpids@.len());
            let before = old(s).ana_states@;
            let news = zone_news(old(s).ana_zones@, state.zones@);
            &&& r.moved@ == moved(before, namespaces@, state.grpids@, state.own_zone, n)
            &&& r.changed == (news || r.moved@.len() > 0)
            &&& final(s).ana_zones@.to_set() == old(s).ana_zones@.to_set().union(
                state.zones@.to_set(),
            )
            &&& final(s).ana_states@ == placed_all(
                before,
                namespaces@,
                state.grpids@,
                state.own_zone,
                n,
            )
            &&& *final(s) == (Subsystem {
                ana_zones: final(s).ana_zones,
                ana_states: final(s).ana_states,
                ana_chgcnt: bumped(
                    old(s).ana_chgcnt,
                    r.moved@.len() + if news {
                        1nat
                    } else {
                        0
                    },
                ),
                ..*old(s)
            })
        }),
{
    let news: bool = s.merge_ana_zones(state.zones.as_slice());
    let ghost first: nat = if news {
        1
    } else {
        0
    };
    let ghost merged = *s;
    let ghost book = s.ana_states@;
    let mut moved: Vec<usize> = Vec::new();
    let n: usize = if namespaces.len() < state.grpids.len() {
        namespaces.len()
    } else {
        state.grpids.len()
    };
    proof {
        reveal_with_fuel(bumped, 2);
    }
    for i in 0..n
        invariant
            n == paths::paired(namespaces@.len(), state.grpids@.len()),
            s.wf(),
            book == old(s).ana_states@,
            s.ana_states@.len() == book.len(),
            forall|i: int|
                0 <= i < namespaces@.len() ==> (#[trigger] namespaces@[i]).cell < book.len(),
            moved@ == self::moved(book, namespaces@, state.grpids@, state.own_zone, i as nat),
            s.ana_states@ == placed_all(
                book,
                namespaces@,
                state.grpids@,
                state.own_zone,
                i as nat,
            ),
            *s == (Subsystem {
                ana_states: s.ana_states,
                ana_chgcnt: bumped(old(s).ana_chgcnt, moved@.len() + first),
                ..merged
            }),
    {
        if let Some(grpid) = state.grpids[i] {
            let optimized: bool = match state.own_zone {
                Some(own) => own == grpid,
                None => false,
            };
            assert(namespaces@[i as int].cell < book.len());
            if s.set_cell(namespaces[i].cell, grpid, optimized) {
                moved.push(i);
            }
        }
    }
    let changed: bool = news || moved.len() > 0;
    AnaChange { changed, moved }
}

/// Every namespace the ring resolved stands in its group afterwards, optimized
/// exactly when the gateway is in that zone, whether or not a table holds it;
/// every other namespace is as it was.
pub proof fn lemma_placed(
    book: Seq<AnaState>,
    v: Seq<ClusterNs>,
    g: Seq<Option<u32>>,
    own: Option<u32>,
    k: nat,
    cell: usize,
)
    requires
        k <= v.len(),
        k <= g.len(),
        forall|i: int, j: int| 0 <= i < j < k ==> (#[trigger] v[i]).cell != (#[trigger] v[j]).cell,
        forall|i: int| 0 <= i < k ==> (#[trigger] v[i]).cell < book.len(),
        cell < book.len(),
    ensures
        ({
            let after = placed_all(book, v, g, own, k);
            &&& after.len() == book.len()
            &&& forall|i: int|
                0 <= i < k && (#[trigger] v[i]).cell == cell && g[i] is Some ==> after[cell as int]
                    == state_in(g[i]->0, own)
            &&& (forall|i: int| 0 <= i < k && (#[trigger] v[i]).cell == cell ==> g[i] is None)
                ==> after[cell as int] == book[cell as int]
        }),
    decreases k,
{
    if k > 0 {
        lemma_placed(book, v, g, own, (k - 1) as nat, cell);
        let before = placed_all(book, v, g, own, (k - 1) as nat);
        let after = placed_all(book, v, g, own, k);
        assert(v[k - 1].cell < book.len());
        assert forall|i: int|
            0 <= i < k && (#[trigger] v[i]).cell == cell && g[i] is Some implies after[cell as int]
            == state_in(g[i]->0, own) by {
            if i < k - 1 {
                assert(v[i].cell != v[k - 1].cell);
            }
        }
        if forall|i: int| 0 <= i < k && (#[trigger] v[i]).cell == cell ==> g[i] is None {
            assert(v[k - 1].cell == cell ==> g[k - 1] is None);
        }
    }
}

/// A namespace in a zone is in the group of that zone, and the path to it is
/// optimized where the gateway is in that zone, and nowhere else.
pub proof fn lemma_state_in(grpid: u32, own: Option<u32>)
    ensures
        state_in(grpid, own).grpid == grpid,
        state_in(grpid, own).optimized <==> (own matches Some(z) && z == grpid),
{
}

/// The namespaces that moved are those whose group or whose path's standing the
/// ring has changed, and no others.
pub proof fn lemma_moved(
    book: Seq<AnaState>,
    v: Seq<ClusterNs>,
    g: Seq<Option<u32>>,
    own: Option<u32>,
    k: nat,
    i: usize,
)
    requires
        k <= v.len(),
        k <= g.len(),
        k <= usize::MAX,
        forall|i: int, j: int| 0 <= i < j < k ==> (#[trigger] v[i]).cell != (#[trigger] v[j]).cell,
        forall|i: int| 0 <= i < k ==> (#[trigger] v[i]).cell < book.len(),
    ensures
        moved(book, v, g, own, k).contains(i) <==> i < k && (g[i as int] matches Some(z)
            && !(book[v[i as int].cell as int].grpid == z && book[v[i as int].cell as int].optimized
            == (own == Some(z)))),
    decreases k,
{
    if k > 0 {
        let m = (k - 1) as nat;
        lemma_moved(book, v, g, own, m, i);
        let rest = moved(book, v, g, own, m);
        let all = moved(book, v, g, own, k);
        assert(v[k - 1].cell < book.len());
        lemma_placed(book, v, g, own, m, v[k - 1].cell);
        let now = placed_all(book, v, g, own, m);
        assert(now[v[k - 1].cell as int] == book[v[k - 1].cell as int]) by {
            assert forall|j: int| 0 <= j < m && (#[trigger] v[j]).cell == v[k - 1].cell implies g[j]
                is None by {
                assert(v[j].cell != v[k - 1].cell);
            }
        }
        if all.len() > rest.len() {
            assert(all[rest.len() as int] == (k - 1) as usize);
        }
        if rest.contains(i) {
            let x = choose|x: int| 0 <= x < rest.len() && rest[x] == i;
            assert(all[x] == i);
        }
        if all.contains(i) {
            let x = choose|x: int| 0 <= x < all.len() && all[x] == i;
            if x < rest.len() {
                assert(rest[x] == i);
            }
        }
    }
}

/// The change count goes up by one for each change, and starts again at zero
/// behind the largest.
pub proof fn lemma_bumped(c: u64, n: nat)
    ensures
        bumped(c, n) as int == (c + n) % 0x1_0000_0000_0000_0000,
    decreases n,
{
    if n > 0 {
        lemma_bumped(c, (n - 1) as nat);
    }
}

/// There is news of zones exactly where one is named that was not known.
pub proof fn lemma_zone_news(known: Seq<u32>, zones: Seq<u32>)
    ensures
        zone_news(known, zones) <==> exists|i: int|
            0 <= i < zones.len() && !known.contains(#[trigger] zones[i]),
{
    if zone_news(known, zones) {
        let z = choose|z: u32| zones.to_set().contains(z) && !known.to_set().contains(z);
        let i = choose|i: int| 0 <= i < zones.len() && zones[i] == z;
        assert(!known.contains(zones[i]));
    }
    if exists|i: int| 0 <= i < zones.len() && !known.contains(#[trigger] zones[i]) {
        let i = choose|i: int| 0 <= i < zones.len() && !known.contains(#[trigger] zones[i]);
        assert(zones.to_set().contains(zones[i]));
        assert(!known.to_set().contains(zones[i]));
    }
}

} // verus!
