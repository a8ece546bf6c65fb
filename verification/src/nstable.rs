//! The namespace table: namespaces by NSID, in ascending order.

use std::sync::Arc;

use vstd::arithmetic::power2::*;
use vstd::prelude::*;

use crate::backend;
use crate::backend::Backend;

verus! {

/// The wire value of an ANA group descriptor's `01h` (Optimized) state.
pub const ANA_STATE_OPTIMIZED: u8 = 0x01;

/// The wire value of an ANA group descriptor's `02h` (Non-Optimized) state.
pub const ANA_STATE_NON_OPTIMIZED: u8 = 0x02;

/// Placeholder ANA group id a namespace starts in, before the control plane
/// has ever computed its real one (a Sheepdog zone id). Any nonzero value
/// works: it is only ever visible in the brief window between a subsystem
/// turning ANA on and its first placement refresh completing, or if that
/// refresh cannot reach the cluster at startup.
pub const ANA_GRPID_PLACEHOLDER: u32 = 1;

/// Where a namespace stands in a subsystem that reports ANA.
#[derive(Debug, Clone, Copy, PartialEq, Eq, Structural)]
pub struct AnaState {
    /// ANA group id (Identify Namespace `ANAGRPID`): which zone of the cluster
    /// owns the namespace's placement. Fixed by the cluster's topology and the
    /// object id, so unlike `optimized` it does not depend on which path this
    /// is.
    pub grpid: u32,
    /// Whether *this* path is a preferred one to the namespace's group: the
    /// gateway this target's cluster connection reaches is itself in `grpid`'s
    /// zone, so reaching the object here costs no extra hop. Two targets
    /// fronting the same cluster through different gateways normally disagree
    /// on this while still agreeing on `grpid`.
    pub optimized: bool,
}

/// The ANA states of a subsystem's namespaces, one cell for each that was ever
/// made; the view is the states. A namespace only names its cell, so everyone
/// who holds one, in a table, a snapshot of it or on its own, reads the same
/// state, and a change shows at once to all of them.
#[derive(Debug)]
pub struct AnaBook {
    /// The states.
    pub states: Vec<AnaState>,
}

impl View for AnaBook {
    type V = Seq<AnaState>;

    open spec fn view(&self) -> Seq<AnaState> {
        self.states@
    }
}

impl AnaBook {
    /// No states.
    pub fn new() -> (r: AnaBook)
        ensures
            r@ == Seq::<AnaState>::empty(),
    {
        AnaBook { states: Vec::new() }
    }

    /// Cells there are.
    pub fn len(&self) -> (r: usize)
        ensures
            r == self@.len(),
    {
        self.states.len()
    }

    /// Set the state in `cell`. Returns whether it was another.
    pub fn set(&mut self, cell: usize, state: AnaState) -> (r: bool)
        requires
            cell < old(self)@.len(),
        ensures
            r == (old(self)@[cell as int] != state),
            final(self)@ == old(self)@.update(cell as int, state),
    {
        let changed: bool = self.states[cell] != state;
        self.states[cell] = state;
        changed
    }
}

/// One namespace: an NSID bound to a backend. What [`Namespace::new`] made and
/// every clone of it are one namespace.
#[derive(Debug)]
pub struct Namespace<B> {
    /// Namespace id.
    pub nsid: u32,
    /// Its storage.
    pub backend: Arc<B>,
    /// Namespace UUID (Identify CNS 0x03 descriptor).
    pub uuid: [u8; 16],
    /// The cell of the subsystem's [`AnaBook`] that holds its ANA state.
    pub cell: usize,
}

impl<B> Namespace<B> {
    /// Its ANA state in `book`.
    pub open spec fn ana(&self, book: Seq<AnaState>) -> AnaState {
        book[self.cell as int]
    }

    /// Bind `nsid` to `backend`, with a cell of its own in `book`. Starts in the
    /// placeholder group, optimized: until something knows better, this path is
    /// as good as any (and for a subsystem that never reports ANA, neither is
    /// ever looked at).
    pub fn new(nsid: u32, backend: Arc<B>, uuid: [u8; 16], book: &mut AnaBook) -> (r: Self)
        ensures
            r == (Namespace { nsid, backend, uuid, cell: r.cell }),
            r.cell == old(book)@.len(),
            final(book)@ == old(book)@.push(
                AnaState { grpid: ANA_GRPID_PLACEHOLDER, optimized: true },
            ),
    {
        let cell: usize = book.states.len();
        book.states.push(AnaState { grpid: ANA_GRPID_PLACEHOLDER, optimized: true });
        Namespace { nsid, backend, uuid, cell }
    }

    /// Whether this path is a preferred one to the namespace.
    pub fn ana_optimized(&self, book: &AnaBook) -> (r: bool)
        requires
            self.cell < book@.len(),
        ensures
            r == self.ana(book@).optimized,
    {
        book.states[self.cell].optimized
    }

    /// The wire value of [`Namespace::ana_optimized`] in an ANA group
    /// descriptor's state field.
    pub fn ana_state_code(&self, book: &AnaBook) -> (r: u8)
        requires
            self.cell < book@.len(),
        ensures
            r == (if self.ana(book@).optimized {
                ANA_STATE_OPTIMIZED
            } else {
                ANA_STATE_NON_OPTIMIZED
            }),
    {
        if self.ana_optimized(book) {
            ANA_STATE_OPTIMIZED
        } else {
            ANA_STATE_NON_OPTIMIZED
        }
    }

    /// Current ANA group id (Identify Namespace `ANAGRPID`).
    pub fn ana_grpid(&self, book: &AnaBook) -> (r: u32)
        requires
            self.cell < book@.len(),
        ensures
            r == self.ana(book@).grpid,
    {
        book.states[self.cell].grpid
    }
}

impl<B> Clone for Namespace<B> {
    fn clone(&self) -> (r: Self)
        ensures
            r == *self,
    {
        Namespace {
            nsid: self.nsid,
            backend: Arc::clone(&self.backend),
            uuid: self.uuid,
            cell: self.cell,
        }
    }
}

/// Whether `ns` has one of `cells` cells, and shares it with no namespace of
/// `m`.
pub open spec fn is_new<B>(m: Map<u32, Namespace<B>>, ns: Namespace<B>, cells: nat) -> bool {
    &&& ns.cell < cells
    &&& forall|k: u32| #[trigger] m.contains_key(k) ==> m[k].cell != ns.cell
}

/// Whether each namespace of `m` has one of `cells` cells of its own.
pub open spec fn celled<B>(m: Map<u32, Namespace<B>>, cells: nat) -> bool {
    &&& forall|k: u32| #[trigger] m.contains_key(k) ==> m[k].cell < cells
    &&& forall|j: u32, k: u32|
        #[trigger] m.contains_key(j) && #[trigger] m.contains_key(k) && j != k ==> m[j].cell
            != m[k].cell
}

/// A namespace with a cell of its own leaves each with one of its own.
pub proof fn lemma_celled_insert<B>(m: Map<u32, Namespace<B>>, ns: Namespace<B>, cells: nat)
    requires
        celled(m, cells),
        is_new(m, ns, cells),
    ensures
        celled(m.insert(ns.nsid, ns), cells),
{
}

/// Bytes of NVM a namespace holds.
pub open spec fn capacity_of<B: Backend>(ns: Namespace<B>) -> nat {
    ns.backend.blocks() as nat * backend::block_size(ns.backend.shift())
}

/// Bytes of NVM the namespaces of `entries` hold.
pub open spec fn capacity_sum<B: Backend>(entries: Seq<Namespace<B>>) -> nat
    decreases entries.len(),
{
    if entries.len() == 0 {
        0
    } else {
        capacity_sum(entries.drop_last()) + capacity_of(entries.last())
    }
}

impl<B: Backend> Namespace<B> {
    /// Capacity in bytes (Identify Namespace `NVMCAP`).
    ///
    /// 128-bit because the NVMe field is: a byte count in `u64` overflows long
    /// before the spec's does, and summing namespaces only brings that closer.
    pub fn capacity(&self) -> (r: u128)
        requires
            self.backend.shift() < 128,
            capacity_of(*self) <= u128::MAX,
        ensures
            r == capacity_of(*self),
    {
        let n: u64 = self.backend.nr_blocks();
        let shift: u8 = self.backend.block_shift();
        let mut r: u128 = n as u128;
        if n == 0 {
            assert(0 * pow2(shift as nat) == 0);
            return 0;
        }
        let ghost p = n as nat;
        proof {
            lemma2_to64();
            assert(p * pow2(0) == p);
        }
        for i in 0..shift
            invariant
                p > 0,
                r == p * pow2(i as nat),
                p * pow2(shift as nat) <= u128::MAX,
        {
            proof {
                lemma_pow2_unfold((i + 1) as nat);
                if i + 1 < shift {
                    lemma_pow2_strictly_increases((i + 1) as nat, shift as nat);
                }
                let a = pow2(i as nat);
                let b = pow2((i + 1) as nat);
                let c = pow2(shift as nat);
                assert(p * b == 2 * (p * a) && p * b <= p * c) by (nonlinear_arith)
                    requires
                        b == 2 * a,
                        b <= c,
                ;
            }
            r = r * 2;
        }
        r
    }
}

/// Whether the NSIDs of `entries` ascend.
pub open spec fn ascend<B>(entries: Seq<Namespace<B>>) -> bool {
    forall|i: int, j: int|
        0 <= i < j < entries.len() ==> (#[trigger] entries[i]).nsid < (#[trigger] entries[j]).nsid
}

/// Whether `entries` hold NSID `nsid` at `i`.
pub open spec fn holds_at<B>(entries: Seq<Namespace<B>>, nsid: u32, i: int) -> bool {
    0 <= i < entries.len() && entries[i].nsid == nsid
}

/// The namespaces of `entries` by NSID.
pub open spec fn by_nsid<B>(entries: Seq<Namespace<B>>) -> Map<u32, Namespace<B>> {
    Map::new(
        |k: u32| exists|i: int| holds_at(entries, k, i),
        |k: u32| entries[choose|i: int| holds_at(entries, k, i)],
    )
}

/// Namespace table: NSID → namespace; the view is that map.
#[derive(Debug)]
pub struct NsMap<B> {
    entries: Vec<Namespace<B>>,
}

impl<B> View for NsMap<B> {
    type V = Map<u32, Namespace<B>>;

    closed spec fn view(&self) -> Map<u32, Namespace<B>> {
        by_nsid(self.entries@)
    }
}

proof fn lemma_at<B>(entries: Seq<Namespace<B>>, i: int)
    requires
        ascend(entries),
        0 <= i < entries.len(),
    ensures
        by_nsid(entries).contains_key(entries[i].nsid),
        by_nsid(entries)[entries[i].nsid] == entries[i],
{
    let k = entries[i].nsid;
    assert(holds_at(entries, k, i));
    let j = choose|j: int| holds_at(entries, k, j);
    if i < j {
        assert(entries[i].nsid < entries[j].nsid);
    } else if j < i {
        assert(entries[j].nsid < entries[i].nsid);
    }
}

impl<B> NsMap<B> {
    /// The namespaces in NSID order.
    pub closed spec fn listed(&self) -> Seq<Namespace<B>> {
        self.entries@
    }

    /// The namespaces stand in NSID order, each NSID once.
    pub open spec fn wf(&self) -> bool {
        ascend(self.listed())
    }

    /// The list and the map hold the same namespaces.
    pub proof fn lemma_listed(&self)
        requires
            self.wf(),
        ensures
            self@ == by_nsid(self.listed()),
            forall|i: int|
                0 <= i < self.listed().len() ==> self@.contains_key(
                    (#[trigger] self.listed()[i]).nsid,
                ) && self@[self.listed()[i].nsid] == self.listed()[i],
            forall|k: u32| #[trigger]
                self@.contains_key(k) ==> exists|i: int| holds_at(self.listed(), k, i),
            forall|k: u32| #[trigger] self@.contains_key(k) ==> self@[k].nsid == k,
    {
        assert forall|i: int| 0 <= i < self.listed().len() implies self@.contains_key(
            (#[trigger] self.listed()[i]).nsid,
        ) && self@[self.listed()[i].nsid] == self.listed()[i] by {
            lemma_at(self.entries@, i);
        }
    }

    /// No namespaces.
    pub fn new() -> (r: NsMap<B>)
        ensures
            r.wf(),
            r@ == Map::<u32, Namespace<B>>::empty(),
            r.listed().len() == 0,
    {
        let r = NsMap { entries: Vec::new() };
        assert(r@ =~= Map::<u32, Namespace<B>>::empty());
        r
    }

    /// Namespaces there are.
    pub fn len(&self) -> (r: usize)
        ensures
            r == self.listed().len(),
    {
        self.entries.len()
    }

    /// No namespaces at all.
    pub fn is_empty(&self) -> (r: bool)
        ensures
            r == (self.listed().len() == 0),
    {
        self.entries.len() == 0
    }

    /// The namespaces in NSID order.
    pub fn entries(&self) -> (r: &[Namespace<B>])
        ensures
            r@ == self.listed(),
    {
        self.entries.as_slice()
    }

    /// The first place whose NSID is not below `nsid`.
    fn place(&self, nsid: u32) -> (r: usize)
        requires
            self.wf(),
        ensures
            r <= self.listed().len(),
            forall|i: int| 0 <= i < r ==> (#[trigger] self.listed()[i]).nsid < nsid,
            forall|i: int| r <= i < self.listed().len() ==> (#[trigger] self.listed()[i]).nsid
                >= nsid,
    {
        let n: usize = self.entries.len();
        let mut i: usize = 0;
        while i < n && self.entries[i].nsid < nsid
            invariant
                n == self.entries@.len(),
                i <= n,
                ascend(self.entries@),
                forall|j: int| 0 <= j < i ==> (#[trigger] self.entries@[j]).nsid < nsid,
            decreases n - i,
        {
            i = i + 1;
        }
        i
    }

    /// The namespace of `nsid`.
    pub fn get(&self, nsid: u32) -> (r: Option<&Namespace<B>>)
        requires
            self.wf(),
        ensures
            match r {
                Some(ns) => self@.contains_key(nsid) && *ns == self@[nsid],
                None => !self@.contains_key(nsid),
            },
    {
        let at: usize = self.place(nsid);
        if at < self.entries.len() && self.entries[at].nsid == nsid {
            proof {
                lemma_at(self.entries@, at as int);
            }
            Some(&self.entries[at])
        } else {
            None
        }
    }

    /// Whether there is a namespace of `nsid`.
    pub fn contains_key(&self, nsid: u32) -> (r: bool)
        requires
            self.wf(),
        ensures
            r == self@.contains_key(nsid),
    {
        self.get(nsid).is_some()
    }

    /// Put `ns` in, in place of one of its NSID.
    pub fn insert(&mut self, ns: Namespace<B>)
        requires
            old(self).wf(),
        ensures
            final(self).wf(),
            final(self)@ == old(self)@.insert(ns.nsid, ns),
    {
        let at: usize = self.place(ns.nsid);
        let ghost before = self.entries@;
        let ghost id = ns.nsid;
        let ghost value = ns;
        if at < self.entries.len() && self.entries[at].nsid == ns.nsid {
            self.entries[at] = ns;
            assert(ascend(self.entries@));
        } else {
            self.entries.insert(at, ns);
            proof {
                assert forall|i: int, j: int| 0 <= i < j < self.entries@.len() implies (
                #[trigger] self.entries@[i]).nsid < (#[trigger] self.entries@[j]).nsid by {
                    if i < at && j > at {
                        assert(before[i].nsid < before[j - 1].nsid);
                    } else if i > at {
                        assert(before[i - 1].nsid < before[j - 1].nsid);
                    } else if i == at {
                        assert(before[j - 1].nsid >= id);
                    } else if j == at {
                        assert(before[i].nsid < id);
                    } else {
                        assert(before[i].nsid < before[j].nsid);
                    }
                }
            }
        }
        proof {
            let after = self.entries@;
            assert forall|k: u32|
                #![trigger by_nsid(after).dom().contains(k)]
                #![trigger by_nsid(before).dom().contains(k)]
                by_nsid(after).contains_key(k) == (k == id || by_nsid(before).contains_key(k))
                    && (by_nsid(after).contains_key(k) ==> by_nsid(after)[k] == (if k == id {
                    value
                } else {
                    by_nsid(before)[k]
                })) by {
                if by_nsid(after).contains_key(k) {
                    let i = choose|i: int| holds_at(after, k, i);
                    lemma_at(after, i);
                    if k != id {
                        let j = if after.len() > before.len() && i > at {
                            i - 1
                        } else {
                            i
                        };
                        assert(before[j] == after[i]);
                        lemma_at(before, j);
                    }
                }
                if k == id {
                    assert(holds_at(after, k, at as int));
                    lemma_at(after, at as int);
                } else if by_nsid(before).contains_key(k) {
                    let i = choose|i: int| holds_at(before, k, i);
                    let j = if after.len() > before.len() && i >= at {
                        i + 1
                    } else {
                        i
                    };
                    assert(after[j] == before[i]);
                    assert(holds_at(after, k, j));
                }
            }
            assert(self@ =~= old(self)@.insert(id, value));
        }
    }

    /// Take the namespace of `nsid` out.
    pub fn remove(&mut self, nsid: u32) -> (r: Option<Namespace<B>>)
        requires
            old(self).wf(),
        ensures
            final(self).wf(),
            final(self)@ == old(self)@.remove(nsid),
            match r {
                Some(ns) => old(self)@.contains_key(nsid) && ns == old(self)@[nsid],
                None => !old(self)@.contains_key(nsid),
            },
    {
        let at: usize = self.place(nsid);
        let ghost before = self.entries@;
        if at < self.entries.len() && self.entries[at].nsid == nsid {
            let ns = self.entries.remove(at);
            proof {
                lemma_at(before, at as int);
                let after = self.entries@;
                assert forall|i: int, j: int| 0 <= i < j < after.len() implies (
                #[trigger] after[i]).nsid < (#[trigger] after[j]).nsid by {
                    let x = if i >= at {
                        i + 1
                    } else {
                        i
                    };
                    let y = if j >= at {
                        j + 1
                    } else {
                        j
                    };
                    assert(before[x].nsid < before[y].nsid);
                }
                assert forall|k: u32|
                    #![trigger by_nsid(after).dom().contains(k)]
                    #![trigger by_nsid(before).dom().contains(k)]
                    by_nsid(after).contains_key(k) == (k != nsid && by_nsid(before).contains_key(
                        k,
                    )) && (by_nsid(after).contains_key(k) ==> by_nsid(after)[k] == by_nsid(
                        before,
                    )[k]) by {
                    if by_nsid(after).contains_key(k) {
                        let i = choose|i: int| holds_at(after, k, i);
                        lemma_at(after, i);
                        let j = if i >= at {
                            i + 1
                        } else {
                            i
                        };
                        assert(before[j] == after[i]);
                        lemma_at(before, j);
                        if j < at {
                            assert(before[j].nsid < before[at as int].nsid);
                        } else {
                            assert(before[at as int].nsid < before[j].nsid);
                        }
                    }
                    if k != nsid && by_nsid(before).contains_key(k) {
                        let i = choose|i: int| holds_at(before, k, i);
                        let j = if i > at {
                            i - 1
                        } else {
                            i
                        };
                        assert(after[j] == before[i]);
                        assert(holds_at(after, k, j));
                    }
                }
                assert(self@ =~= old(self)@.remove(nsid));
            }
            Some(ns)
        } else {
            assert(!self@.contains_key(nsid));
            assert(self@ =~= old(self)@.remove(nsid));
            None
        }
    }

    /// Highest NSID; 0 where there is none.
    pub fn max_nsid(&self) -> (r: u32)
        requires
            self.wf(),
        ensures
            self@ == Map::<u32, Namespace<B>>::empty() ==> r == 0,
            self@ != Map::<u32, Namespace<B>>::empty() ==> self@.contains_key(r),
            forall|k: u32| #[trigger] self@.contains_key(k) ==> k <= r,
    {
        let n: usize = self.entries.len();
        proof {
            self.lemma_listed();
        }
        if n == 0 {
            proof {
                assert forall|k: u32| !self@.contains_key(k) by {}
                assert(self@ =~= Map::<u32, Namespace<B>>::empty());
            }
            return 0;
        }
        proof {
            let last = self.entries@[n - 1].nsid;
            assert(self@.contains_key(last));
            assert forall|k: u32| #[trigger] self@.contains_key(k) implies k <= last by {
                let i = choose|i: int| holds_at(self.entries@, k, i);
                if i < n - 1 {
                    assert(self.entries@[i].nsid < self.entries@[n - 1].nsid);
                }
            }
            if self@ == Map::<u32, Namespace<B>>::empty() {
                assert(!Map::<u32, Namespace<B>>::empty().contains_key(last));
            }
        }
        self.entries[n - 1].nsid
    }
}

impl<B> Clone for NsMap<B> {
    fn clone(&self) -> (r: Self)
        ensures
            r@ == self@,
            r.listed() == self.listed(),
    {
        let mut entries: Vec<Namespace<B>> = Vec::new();
        let n: usize = self.entries.len();
        for i in 0..n
            invariant
                n == self.entries@.len(),
                entries@ == self.entries@.take(i as int),
        {
            entries.push(self.entries[i].clone());
            assert(entries@ =~= self.entries@.take(i as int + 1));
        }
        assert(entries@ =~= self.entries@);
        NsMap { entries }
    }
}

impl<B: Backend> NsMap<B> {
    /// Bytes of NVM all namespaces hold.
    pub fn total_capacity(&self) -> (r: u128)
        requires
            capacity_sum(self.listed()) <= u128::MAX,
            forall|i: int|
                0 <= i < self.listed().len() ==> (#[trigger] self.listed()[i]).backend.shift()
                    < 128,
        ensures
            r == capacity_sum(self.listed()),
    {
        let mut r: u128 = 0;
        let n: usize = self.entries.len();
        assert(self.entries@.take(0) =~= seq![]);
        for i in 0..n
            invariant
                n == self.entries@.len(),
                forall|i: int|
                    0 <= i < self.entries@.len() ==> (#[trigger] self.entries@[i]).backend.shift()
                        < 128,
                r == capacity_sum(self.entries@.take(i as int)),
                capacity_sum(self.entries@) <= u128::MAX,
        {
            proof {
                let t = self.entries@.take(i as int + 1);
                assert(t.drop_last() =~= self.entries@.take(i as int));
                lemma_capacity_prefix(self.entries@, i as int + 1);
            }
            r = r + self.entries[i].capacity();
        }
        assert(self.entries@.take(n as int) =~= self.entries@);
        r
    }
}

proof fn lemma_capacity_prefix<B: Backend>(entries: Seq<Namespace<B>>, k: int)
    requires
        0 <= k <= entries.len(),
    ensures
        capacity_sum(entries.take(k)) <= capacity_sum(entries),
    decreases entries.len(),
{
    if k == entries.len() {
        assert(entries.take(k) =~= entries);
    } else {
        lemma_capacity_prefix(entries.drop_last(), k);
        assert(entries.drop_last().take(k) =~= entries.take(k));
    }
}

// ---------------------------------------------------------------------------
// Laws
// ---------------------------------------------------------------------------

/// Two lists in NSID order that hold the same namespaces are one list.
pub proof fn lemma_one_list<B>(a: Seq<Namespace<B>>, b: Seq<Namespace<B>>)
    requires
        ascend(a),
        ascend(b),
        by_nsid(a) == by_nsid(b),
    ensures
        a == b,
    decreases a.len(),
{
    if a.len() == 0 {
        if b.len() > 0 {
            lemma_at(b, 0);
            let i = choose|i: int| holds_at(a, b[0].nsid, i);
        }
        assert(a =~= b);
    } else {
        lemma_at(a, a.len() - 1);
        let j = choose|j: int| holds_at(b, a.last().nsid, j);
        lemma_at(b, j);
        lemma_at(b, b.len() - 1);
        let i = choose|i: int| holds_at(a, b.last().nsid, i);
        lemma_at(a, i);
        // Each list's last is the highest NSID there is.
        assert(a.last().nsid == b.last().nsid);
        assert(a.last() == b.last());
        lemma_without_last(a);
        lemma_without_last(b);
        lemma_one_list(a.drop_last(), b.drop_last());
        assert(a =~= a.drop_last().push(a.last()));
        assert(b =~= b.drop_last().push(b.last()));
    }
}

proof fn lemma_without_last<B>(a: Seq<Namespace<B>>)
    requires
        ascend(a),
        a.len() > 0,
    ensures
        ascend(a.drop_last()),
        by_nsid(a.drop_last()) == by_nsid(a).remove(a.last().nsid),
{
    let init = a.drop_last();
    assert(ascend(init)) by {
        assert forall|i: int, j: int| 0 <= i < j < init.len() implies (#[trigger] init[i]).nsid < (
        #[trigger] init[j]).nsid by {
            assert(a[i].nsid < a[j].nsid);
        }
    }
    assert forall|k: u32|
        #![trigger by_nsid(init).dom().contains(k)]
        #![trigger by_nsid(a).dom().contains(k)]
        by_nsid(init).contains_key(k) == (k != a.last().nsid && by_nsid(a).contains_key(k)) && (
        by_nsid(init).contains_key(k) ==> by_nsid(init)[k] == by_nsid(a)[k]) by {
        if by_nsid(init).contains_key(k) {
            let i = choose|i: int| holds_at(init, k, i);
            lemma_at(init, i);
            assert(a[i] == init[i]);
            lemma_at(a, i);
            assert(a[i].nsid < a[a.len() - 1].nsid);
        }
        if k != a.last().nsid && by_nsid(a).contains_key(k) {
            let i = choose|i: int| holds_at(a, k, i);
            assert(holds_at(init, k, i));
        }
    }
    assert(by_nsid(init) =~= by_nsid(a).remove(a.last().nsid));
}

/// A namespace more adds its capacity to the sum, wherever it stands.
proof fn lemma_capacity_insert<B: Backend>(s: Seq<Namespace<B>>, at: int, ns: Namespace<B>)
    requires
        0 <= at <= s.len(),
    ensures
        capacity_sum(s.insert(at, ns)) == capacity_sum(s) + capacity_of(ns),
    decreases s.len(),
{
    let t = s.insert(at, ns);
    if at == s.len() {
        assert(t.drop_last() =~= s);
        assert(t.last() == ns);
    } else {
        assert(t.drop_last() =~= s.drop_last().insert(at, ns));
        assert(t.last() == s.last());
        lemma_capacity_insert(s.drop_last(), at, ns);
    }
}

/// An added namespace moves the capacity of a table up by exactly its own, and
/// a removed one moves it down by exactly its own: `more` is `less` and `ns`.
pub proof fn lemma_capacity_moves<B: Backend>(less: NsMap<B>, more: NsMap<B>, ns: Namespace<B>)
    requires
        less.wf(),
        more.wf(),
        !less@.contains_key(ns.nsid),
        more@ == less@.insert(ns.nsid, ns),
    ensures
        capacity_sum(more.listed()) == capacity_sum(less.listed()) + capacity_of(ns),
{
    more.lemma_listed();
    less.lemma_listed();
    let m = more.listed();
    assert(more@.contains_key(ns.nsid));
    let at = choose|i: int| holds_at(m, ns.nsid, i);
    lemma_at(m, at);
    let rest = m.remove(at);
    assert(ascend(rest)) by {
        assert forall|i: int, j: int| 0 <= i < j < rest.len() implies (#[trigger] rest[i]).nsid < (
        #[trigger] rest[j]).nsid by {
            let x = if i >= at {
                i + 1
            } else {
                i
            };
            let y = if j >= at {
                j + 1
            } else {
                j
            };
            assert(m[x].nsid < m[y].nsid);
        }
    }
    assert forall|k: u32|
        #![trigger by_nsid(rest).dom().contains(k)]
        #![trigger less@.dom().contains(k)]
        by_nsid(rest).contains_key(k) == less@.contains_key(k) && (by_nsid(rest).contains_key(k)
            ==> by_nsid(rest)[k] == less@[k]) by {
        if by_nsid(rest).contains_key(k) {
            let i = choose|i: int| holds_at(rest, k, i);
            lemma_at(rest, i);
            let x = if i >= at {
                i + 1
            } else {
                i
            };
            assert(m[x] == rest[i]);
            lemma_at(m, x);
            if x < at {
                assert(m[x].nsid < m[at].nsid);
            } else {
                assert(m[at].nsid < m[x].nsid);
            }
            assert(more@.contains_key(k) && k != ns.nsid);
        }
        if less@.contains_key(k) {
            assert(more@.contains_key(k));
            let x = choose|x: int| holds_at(m, k, x);
            let i = if x > at {
                x - 1
            } else {
                x
            };
            assert(rest[i] == m[x]);
            assert(holds_at(rest, k, i));
        }
    }
    assert(by_nsid(rest) =~= less@);
    lemma_one_list(rest, less.listed());
    assert(m =~= rest.insert(at, ns));
    lemma_capacity_insert(rest, at, ns);
}

} // verus!
