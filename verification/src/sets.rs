//! Finite sets of integers: their least members, and how parts of a set add
//! up to it.

use vstd::prelude::*;
use vstd::set_lib::*;

verus! {

/// Whether `c` is the least member of `s`.
pub open spec fn is_least(s: Set<int>, c: int) -> bool {
    s.contains(c) && forall|x: int| #[trigger] s.contains(x) ==> c <= x
}

/// The least member of a finite set that is not empty.
pub open spec fn least(s: Set<int>) -> int {
    choose|c: int| is_least(s, c)
}

/// The `k` lowest members of `s`; all of them where it has no more.
pub open spec fn lowest(s: Set<int>, k: nat) -> Set<int>
    decreases k,
{
    if k == 0 || s == Set::<int>::empty() {
        Set::empty()
    } else {
        lowest(s.remove(least(s)), (k - 1) as nat).insert(least(s))
    }
}

/// A finite set that is not empty has a least member, and only one.
pub proof fn lemma_least(s: Set<int>)
    requires
        s.finite(),
        s != Set::<int>::empty(),
    ensures
        is_least(s, least(s)),
        forall|c: int| is_least(s, c) ==> c == least(s),
{
    lemma_some_least(s);
}

proof fn lemma_some_least(s: Set<int>)
    requires
        s.finite(),
        s != Set::<int>::empty(),
    ensures
        exists|c: int| is_least(s, c),
    decreases s.len(),
{
    let a = lemma_some_member(s);
    let rest = s.remove(a);
    if rest == Set::<int>::empty() {
        assert forall|x: int| #[trigger] s.contains(x) implies a <= x by {
            if x != a {
                assert(rest.contains(x));
            }
        }
        assert(is_least(s, a));
    } else {
        lemma_some_least(rest);
        let b = choose|c: int| is_least(rest, c);
        let m = if a <= b {
            a
        } else {
            b
        };
        assert forall|x: int| #[trigger] s.contains(x) implies m <= x by {
            if x != a {
                assert(rest.contains(x));
            }
        }
        assert(is_least(s, m));
    }
}

/// Some member of a set that is not empty.
pub proof fn lemma_some_member(s: Set<int>) -> (c: int)
    requires
        s != Set::<int>::empty(),
    ensures
        s.contains(c),
{
    if forall|c: int| !s.contains(c) {
        assert(s =~= Set::empty());
    }
    choose|c: int| s.contains(c)
}

/// The `k` lowest members are members, and `k` of them where `s` has as many.
pub proof fn lemma_lowest(s: Set<int>, k: nat)
    requires
        s.finite(),
    ensures
        lowest(s, k).finite(),
        lowest(s, k).subset_of(s),
        lowest(s, k).len() == if k <= s.len() {
            k
        } else {
            s.len()
        },
        s.len() <= k ==> lowest(s, k) == s,
    decreases k,
{
    if k == 0 {
        if s.len() == 0 {
            assert(s =~= Set::empty());
        }
    } else if s == Set::<int>::empty() {
    } else {
        lemma_least(s);
        let rest = s.remove(least(s));
        lemma_lowest(rest, (k - 1) as nat);
        assert(!lowest(rest, (k - 1) as nat).contains(least(s)));
        if s.len() <= k {
            assert(lowest(s, k) =~= s);
        }
    }
}

/// One more of the lowest members is the least of those left.
pub proof fn lemma_lowest_next(s: Set<int>, k: nat, c: int)
    requires
        s.finite(),
        is_least(s.difference(lowest(s, k)), c),
    ensures
        lowest(s, k + 1) == lowest(s, k).insert(c),
    decreases k,
{
    let left = s.difference(lowest(s, k));
    assert(s != Set::<int>::empty()) by {
        assert(s.contains(c));
    }
    lemma_least(s);
    if k == 0 {
        assert(left =~= s);
        assert(is_least(s, c));
        let one = lowest(s.remove(c), 0);
        assert(one =~= Set::empty());
        assert(lowest(s, 1) =~= lowest(s, 0).insert(c));
    } else {
        let rest = s.remove(least(s));
        lemma_lowest(rest, (k - 1) as nat);
        assert(rest.difference(lowest(rest, (k - 1) as nat)) =~= left);
        lemma_lowest_next(rest, (k - 1) as nat, c);
        assert(lowest(s, k + 1) =~= lowest(s, k).insert(c));
    }
}

/// The sets of `parts` together.
pub open spec fn together(parts: Seq<Set<int>>) -> Set<int> {
    Set::new(|c: int| in_some(parts, c))
}

/// Whether `c` is in one of `parts`.
pub open spec fn in_some(parts: Seq<Set<int>>, c: int) -> bool {
    exists|i: int| 0 <= i < parts.len() && (#[trigger] parts[i]).contains(c)
}

/// Whether no two of `parts` share a member.
pub open spec fn apart(parts: Seq<Set<int>>) -> bool {
    forall|i: int, j: int, c: int|
        0 <= i < j < parts.len() && #[trigger] parts[i].contains(c) ==> !#[trigger] parts[j].contains(c)
}

/// `parts` cut `whole` up: no two share a member, and together they are it.
pub open spec fn partition(parts: Seq<Set<int>>, whole: Set<int>) -> bool {
    apart(parts) && together(parts) == whole
}

/// A partition of two disjoint wholes, one after the other.
pub proof fn lemma_partition_append(
    a: Seq<Set<int>>,
    x: Set<int>,
    b: Seq<Set<int>>,
    y: Set<int>,
)
    requires
        partition(a, x),
        partition(b, y),
        x.disjoint(y),
    ensures
        partition(a + b, x.union(y)),
{
    let p = a + b;
    assert forall|c: int| in_some(a, c) implies x.contains(c) by {
        assert(together(a).contains(c));
    }
    assert forall|c: int| in_some(b, c) implies y.contains(c) by {
        assert(together(b).contains(c));
    }
    assert forall|i: int, j: int, c: int|
        0 <= i < j < p.len() && #[trigger] p[i].contains(c) implies !#[trigger] p[j].contains(c) by {
        if j < a.len() {
            assert(p[i] == a[i] && p[j] == a[j]);
        } else if i >= a.len() {
            assert(p[i] == b[i - a.len()] && p[j] == b[j - a.len()]);
        } else {
            assert(p[i] == a[i] && p[j] == b[j - a.len()]);
            assert(in_some(a, c));
            if p[j].contains(c) {
                assert(in_some(b, c));
            }
        }
    }
    assert forall|c: int| in_some(p, c) == (x.contains(c) || y.contains(c)) by {
        if in_some(p, c) {
            let i = choose|i: int| 0 <= i < p.len() && (#[trigger] p[i]).contains(c);
            if i < a.len() {
                assert(a[i].contains(c));
                assert(in_some(a, c));
            } else {
                assert(b[i - a.len()].contains(c));
                assert(in_some(b, c));
            }
        }
        if x.contains(c) {
            assert(together(a).contains(c));
            let i = choose|i: int| 0 <= i < a.len() && (#[trigger] a[i]).contains(c);
            assert(p[i].contains(c));
        }
        if y.contains(c) {
            assert(together(b).contains(c));
            let i = choose|i: int| 0 <= i < b.len() && (#[trigger] b[i]).contains(c);
            assert(p[i + a.len()].contains(c));
        }
    }
    assert(together(p) =~= x.union(y));
}

/// Nothing cut up is nothing.
pub proof fn lemma_partition_empty()
    ensures
        partition(seq![], Set::empty()),
{
    assert(together(seq![]) =~= Set::empty());
}

/// A set is its own one-part partition.
pub proof fn lemma_partition_one(x: Set<int>)
    ensures
        partition(seq![x], x),
{
    assert forall|c: int| in_some(seq![x], c) == x.contains(c) by {
        if x.contains(c) {
            assert(seq![x][0].contains(c));
        }
    }
    assert(together(seq![x]) =~= x);
}

/// The sum of `v`.
pub open spec fn total(v: Seq<nat>) -> nat
    decreases v.len(),
{
    if v.len() == 0 {
        0
    } else {
        total(v.drop_last()) + v.last()
    }
}

/// A total taken from the front.
pub proof fn lemma_total_first(v: Seq<nat>)
    requires
        v.len() > 0,
    ensures
        total(v) == v[0] + total(v.drop_first()),
    decreases v.len(),
{
    if v.len() == 1 {
        assert(v.drop_last() =~= seq![]);
        assert(v.drop_first() =~= seq![]);
    } else {
        lemma_total_first(v.drop_last());
        assert(v.drop_last().drop_first() =~= v.drop_first().drop_last());
        assert(v.drop_first().last() == v.last());
    }
}

/// Every entry is at most the total.
pub proof fn lemma_total_bounds(v: Seq<nat>, lo: nat)
    requires
        forall|i: int| 0 <= i < v.len() ==> lo <= #[trigger] v[i],
    ensures
        total(v) >= v.len() * lo,
        forall|i: int| 0 <= i < v.len() ==> #[trigger] v[i] <= total(v),
    decreases v.len(),
{
    if v.len() > 0 {
        let w = v.drop_last();
        assert forall|i: int| 0 <= i < w.len() implies lo <= #[trigger] w[i] by {
            assert(w[i] == v[i]);
        }
        lemma_total_bounds(w, lo);
        assert forall|i: int| 0 <= i < v.len() implies #[trigger] v[i] <= total(v) by {
            if i < w.len() {
                assert(w[i] == v[i]);
            }
        }
        assert(v.len() * lo == w.len() * lo + lo) by (nonlinear_arith)
            requires
                v.len() == w.len() + 1,
        ;
    }
}

/// The parts of a finite set add up to it.
pub proof fn lemma_partition_len(parts: Seq<Set<int>>, whole: Set<int>)
    requires
        partition(parts, whole),
        whole.finite(),
    ensures
        total(parts.map_values(|p: Set<int>| p.len())) == whole.len(),
    decreases parts.len(),
{
    let f = |p: Set<int>| p.len();
    if parts.len() == 0 {
        assert(whole =~= Set::empty()) by {
            assert forall|c: int| !whole.contains(c) by {
                assert(!together(parts).contains(c));
            }
        }
    } else {
        let last = parts.last();
        let init = parts.drop_last();
        let rest = whole.difference(last);
        assert forall|c: int| last.contains(c) implies whole.contains(c) by {
            assert(parts[parts.len() - 1].contains(c));
            assert(together(parts).contains(c));
        }
        assert forall|c: int| in_some(init, c) == rest.contains(c) by {
            if in_some(init, c) {
                let i = choose|i: int| 0 <= i < init.len() && (#[trigger] init[i]).contains(c);
                assert(parts[i].contains(c));
                assert(together(parts).contains(c));
                assert(!parts[parts.len() - 1].contains(c));
            }
            if rest.contains(c) {
                assert(together(parts).contains(c));
                let i = choose|i: int| 0 <= i < parts.len() && (#[trigger] parts[i]).contains(c);
                assert(init[i].contains(c));
            }
        }
        assert(together(init) =~= rest);
        assert forall|i: int, j: int, c: int|
            0 <= i < j < init.len() && #[trigger] init[i].contains(c) implies !#[trigger] init[j].contains(c) by {
            assert(parts[i] == init[i] && parts[j] == init[j]);
        }
        lemma_partition_len(init, rest);
        lemma_set_subset_finite(whole, last);
        assert(whole =~= rest.union(last));
        lemma_set_disjoint_lens(rest, last);
        assert(parts.map_values(f).drop_last() =~= init.map_values(f));
    }
}

} // verus!
