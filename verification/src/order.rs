//! Ranking of weighted entries: by weight, ties to the lower index.

use vstd::multiset::*;
use vstd::prelude::*;
use vstd::relations::*;
use vstd::seq_lib::*;

verus! {

/// Whether `a` ranks no later than `b`: by weight, then by index.
pub open spec fn precedes(a: (u128, usize), b: (u128, usize), heaviest_first: bool) -> bool {
    if a.0 != b.0 {
        if heaviest_first {
            a.0 > b.0
        } else {
            a.0 < b.0
        }
    } else {
        a.1 <= b.1
    }
}

/// The entries of `s` in rank order.
pub open spec fn ranked(s: Seq<(u128, usize)>, heaviest_first: bool) -> Seq<(u128, usize)> {
    s.sort_by(|a: (u128, usize), b: (u128, usize)| precedes(a, b, heaviest_first))
}

/// Ranking reorders the entries and puts them in order.
pub proof fn lemma_ranked(s: Seq<(u128, usize)>, heaviest_first: bool)
    ensures
        ranked(s, heaviest_first).to_multiset() == s.to_multiset(),
        ranked(s, heaviest_first).len() == s.len(),
        forall|i: int, j: int|
            0 <= i < j < s.len() ==> precedes(
                #[trigger] ranked(s, heaviest_first)[i],
                #[trigger] ranked(s, heaviest_first)[j],
                heaviest_first,
            ),
        forall|e: (u128, usize)| #[trigger]
            ranked(s, heaviest_first).contains(e) <==> s.contains(e),
        s.no_duplicates() ==> ranked(s, heaviest_first).no_duplicates(),
{
    let leq = |a: (u128, usize), b: (u128, usize)| precedes(a, b, heaviest_first);
    let r = ranked(s, heaviest_first);
    lemma_total(heaviest_first);
    s.lemma_sort_by_ensures(leq);
    assert(r.to_multiset() == s.to_multiset());
    to_multiset_len(r);
    to_multiset_len(s);
    assert forall|e: (u128, usize)| #[trigger] r.contains(e) <==> s.contains(e) by {
        to_multiset_contains(r, e);
        to_multiset_contains(s, e);
    }
    assert forall|i: int, j: int| 0 <= i < j < s.len() implies precedes(
        #[trigger] r[i],
        #[trigger] r[j],
        heaviest_first,
    ) by {
        assert(leq(r[i], r[j]));
    }
    if s.no_duplicates() {
        s.lemma_multiset_has_no_duplicates();
        r.lemma_multiset_has_no_duplicates_conv();
    }
}

proof fn lemma_total(heaviest_first: bool)
    ensures
        total_ordering(|a: (u128, usize), b: (u128, usize)| precedes(a, b, heaviest_first)),
{
}

/// The entries of `v` in rank order.
pub fn rank(v: &Vec<(u128, usize)>, heaviest_first: bool) -> (r: Vec<(u128, usize)>)
    ensures
        r@ == ranked(v@, heaviest_first),
{
    let mut r: Vec<(u128, usize)> = Vec::new();
    let n: usize = v.len();
    let ghost leq = |a: (u128, usize), b: (u128, usize)| precedes(a, b, heaviest_first);
    assert(v@.take(0) =~= r@);
    for i in 0..n
        invariant
            n == v@.len(),
            r@.len() == i,
            leq == (|a: (u128, usize), b: (u128, usize)| precedes(a, b, heaviest_first)),
            r@.to_multiset() == v@.take(i as int).to_multiset(),
            forall|x: int, y: int| 0 <= x < y < r@.len() ==> leq(r@[x], r@[y]),
    {
        let e: (u128, usize) = v[i];
        let mut at: usize = i;
        while at > 0 && !ranks_before(r[at - 1], e, heaviest_first)
            invariant
                at <= r@.len() == i,
                leq == (|a: (u128, usize), b: (u128, usize)| precedes(a, b, heaviest_first)),
                forall|x: int, y: int| 0 <= x < y < r@.len() ==> leq(r@[x], r@[y]),
                forall|y: int| at <= y < r@.len() ==> !leq(#[trigger] r@[y], e),
            decreases at,
        {
            at = at - 1;
        }
        let ghost before = r@;
        r.insert(at, e);
        proof {
            to_multiset_insert(before, at as int, e);
            to_multiset_build(v@.take(i as int), e);
            assert(v@.take(i as int + 1) =~= v@.take(i as int).push(e));
            assert(r@.to_multiset() =~= v@.take(i as int + 1).to_multiset());
            before.insert_ensures(at as int, e);
            assert forall|x: int, y: int| 0 <= x < y < r@.len() implies leq(r@[x], r@[y]) by {
                if x < at && y == at {
                    assert(leq(before[at - 1], e));
                    if x < at - 1 {
                        assert(leq(before[x], before[at - 1]));
                    }
                } else if x == at {
                    assert(!leq(before[y - 1], e));
                } else if x < at && y > at {
                    assert(leq(before[x], before[y - 1]));
                } else if x > at {
                    assert(leq(before[x - 1], before[y - 1]));
                } else {
                    assert(leq(before[x], before[y]));
                }
            }
        }
    }
    proof {
        assert(v@.take(n as int) =~= v@);
        lemma_total(heaviest_first);
        v@.lemma_sort_by_ensures(leq);
        assert forall|x: int, y: int| 0 <= x < y < r@.len() implies leq(r@[x], r@[y]) by {}
        assert(sorted_by(r@, leq));
        lemma_sorted_unique(r@, ranked(v@, heaviest_first), leq);
    }
    r
}

fn ranks_before(a: (u128, usize), b: (u128, usize), heaviest_first: bool) -> (r: bool)
    ensures
        r == precedes(a, b, heaviest_first),
{
    if a.0 != b.0 {
        if heaviest_first {
            a.0 > b.0
        } else {
            a.0 < b.0
        }
    } else {
        a.1 <= b.1
    }
}

/// Where `x` goes in `s`: before the first one it is less than, behind all
/// others.
pub open spec fn slot<A>(s: Seq<A>, x: A, less: spec_fn(A, A) -> bool) -> int
    decreases s.len(),
{
    if s.len() == 0 || less(x, s[0]) {
        0
    } else {
        1 + slot(s.drop_first(), x, less)
    }
}

/// `s` in order, equals in the order they came.
pub open spec fn stable<A>(s: Seq<A>, less: spec_fn(A, A) -> bool) -> Seq<A>
    decreases s.len(),
{
    if s.len() == 0 {
        seq![]
    } else {
        let t = stable(s.drop_last(), less);
        t.insert(slot(t, s.last(), less), s.last())
    }
}

/// The slot is where a search from the front stops.
pub proof fn lemma_slot_is<A>(s: Seq<A>, x: A, less: spec_fn(A, A) -> bool, at: int)
    requires
        0 <= at <= s.len(),
        forall|j: int| 0 <= j < at ==> !less(x, #[trigger] s[j]),
        at == s.len() || less(x, s[at]),
    ensures
        slot(s, x, less) == at,
    decreases s.len(),
{
    if at > 0 {
        assert(!less(x, s[0]));
        let t = s.drop_first();
        assert forall|j: int| 0 <= j < at - 1 implies !less(x, #[trigger] t[j]) by {
            assert(t[j] == s[j + 1]);
        }
        if at < s.len() {
            assert(t[at - 1] == s[at]);
        }
        lemma_slot_is(t, x, less, at - 1);
    }
}

proof fn lemma_slot<A>(s: Seq<A>, x: A, less: spec_fn(A, A) -> bool)
    ensures
        0 <= slot(s, x, less) <= s.len(),
        forall|j: int| 0 <= j < slot(s, x, less) ==> !less(x, #[trigger] s[j]),
        slot(s, x, less) < s.len() ==> less(x, s[slot(s, x, less)]),
    decreases s.len(),
{
    if s.len() > 0 && !less(x, s[0]) {
        let t = s.drop_first();
        lemma_slot(t, x, less);
        assert forall|j: int| 0 <= j < slot(s, x, less) implies !less(x, #[trigger] s[j]) by {
            if j > 0 {
                assert(t[j - 1] == s[j]);
            }
        }
        if slot(s, x, less) < s.len() {
            assert(t[slot(t, x, less)] == s[slot(s, x, less)]);
        }
    }
}

/// Sorting loses nothing and leaves nothing out of order, for an order that
/// is one: transitive, as is "not before".
pub proof fn lemma_stable<A>(s: Seq<A>, less: spec_fn(A, A) -> bool)
    requires
        forall|a: A, b: A, c: A| #[trigger] less(a, b) && #[trigger] less(b, c) ==> less(a, c),
        forall|a: A, b: A, c: A| !#[trigger] less(a, b) && !#[trigger] less(b, c) ==> !less(a, c),
        forall|a: A| !#[trigger] less(a, a),
    ensures
        stable(s, less).len() == s.len(),
        stable(s, less).to_multiset() == s.to_multiset(),
        forall|i: int, j: int|
            0 <= i < j < s.len() ==> !less(
                #[trigger] stable(s, less)[j],
                #[trigger] stable(s, less)[i],
            ),
    decreases s.len(),
{
    if s.len() == 0 {
        assert(stable(s, less) =~= s);
    } else {
        let x = s.last();
        let t = stable(s.drop_last(), less);
        lemma_stable(s.drop_last(), less);
        lemma_slot(t, x, less);
        let k = slot(t, x, less);
        let r = stable(s, less);
        to_multiset_insert(t, k, x);
        to_multiset_build(s.drop_last(), x);
        assert(s.drop_last().push(x) =~= s);
        t.insert_ensures(k, x);
        assert forall|i: int, j: int| 0 <= i < j < s.len() implies !less(
            #[trigger] r[j],
            #[trigger] r[i],
        ) by {
            if j < k {
                assert(!less(t[j], t[i]));
            } else if j == k {
                assert(!less(x, t[i]));
            } else if i < k {
                assert(!less(t[j - 1], t[i]));
            } else if i == k {
                assert(less(x, t[k]));
                if j - 1 > k {
                    assert(!less(t[j - 1], t[k]));
                }
                if less(t[j - 1], x) {
                    assert(less(t[j - 1], t[k]));
                    assert(!less(t[k], t[k]));
                }
            } else {
                assert(!less(t[j - 1], t[i - 1]));
            }
        }
    }
}

/// Ranked heaviest first, no entry is heavier than one before it; ranked lightest
/// first, none is lighter; and of entries that weigh the same the one with the
/// lower index comes first.
pub proof fn lemma_rank_order(s: Seq<(u128, usize)>, i: int, j: int)
    requires
        0 <= i < j < s.len(),
    ensures
        ranked(s, true)[i].0 >= ranked(s, true)[j].0,
        ranked(s, false)[i].0 <= ranked(s, false)[j].0,
        ranked(s, true)[i].0 == ranked(s, true)[j].0 ==> ranked(s, true)[i].1 <= ranked(
            s,
            true,
        )[j].1,
        ranked(s, false)[i].0 == ranked(s, false)[j].0 ==> ranked(s, false)[i].1 <= ranked(
            s,
            false,
        )[j].1,
{
    lemma_ranked(s, true);
    lemma_ranked(s, false);
}

} // verus!
