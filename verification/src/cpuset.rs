//! Growable CPU bitset with the mask operations the grouping and the
//! topology reader rely on.
//!
//! The view of a [`CpuSet`] is the mathematical set of the CPU ids in it.

use vstd::prelude::*;
use vstd::set_lib::*;

use crate::text;

verus! {

pub const BITS_PER_WORD: usize = 64;

/// A set of CPU ids backed by a growable bit vector.
///
/// Sets grow on demand; all binary operations accept operands of different
/// lengths.
#[derive(Debug, PartialEq, Eq)]
pub struct CpuSet {
    words: Vec<u64>,
}

/// Why a cpulist was refused: the range that is none.
#[derive(Debug)]
pub struct CpuListError {
    pub part: String,
}

/// Whether bit `b` of `w` is set.
spec fn bit(w: u64, b: int) -> bool {
    w & (1u64 << (b as u64)) != 0
}

/// Whether the bit of CPU `c` is set in `words`.
spec fn in_words(words: Seq<u64>, c: int) -> bool {
    0 <= c <= usize::MAX && c / 64 < words.len() && bit(words[c / 64], c % 64)
}

proof fn lemma_bit_ops(a: u64, b: u64, i: u64)
    requires
        i < 64,
    ensures
        (a & b) & (1u64 << i) != 0 <==> (a & (1u64 << i) != 0 && b & (1u64 << i) != 0),
        (a | b) & (1u64 << i) != 0 <==> (a & (1u64 << i) != 0 || b & (1u64 << i) != 0),
        (a & !b) & (1u64 << i) != 0 <==> (a & (1u64 << i) != 0 && b & (1u64 << i) == 0),
        0u64 & (1u64 << i) == 0,
{
    assert((a & b) & (1u64 << i) != 0 <==> (a & (1u64 << i) != 0 && b & (1u64 << i) != 0))
        by (bit_vector)
        requires
            i < 64,
    ;
    assert((a | b) & (1u64 << i) != 0 <==> (a & (1u64 << i) != 0 || b & (1u64 << i) != 0))
        by (bit_vector)
        requires
            i < 64,
    ;
    assert((a & !b) & (1u64 << i) != 0 <==> (a & (1u64 << i) != 0 && b & (1u64 << i) == 0))
        by (bit_vector)
        requires
            i < 64,
    ;
    assert(0u64 & (1u64 << i) == 0) by (bit_vector);
}

proof fn lemma_one_bit(i: u64, j: u64)
    requires
        i < 64,
        j < 64,
    ensures
        (1u64 << i) & (1u64 << j) != 0 <==> i == j,
{
    assert((1u64 << i) & (1u64 << j) != 0 <==> i == j) by (bit_vector)
        requires
            i < 64,
            j < 64,
    ;
}

/// `v` lists `s`: every member once, in ascending order.
pub open spec fn lists(v: Seq<usize>, s: Set<int>) -> bool {
    &&& forall|i: int, j: int| 0 <= i < j < v.len() ==> v[i] < v[j]
    &&& forall|i: int| 0 <= i < v.len() ==> s.contains(#[trigger] v[i] as int)
    &&& forall|c: int| #[trigger] s.contains(c) ==> 0 <= c <= usize::MAX && v.contains(c as usize)
}

/// A listing of a set is as long as the set is large.
pub proof fn lemma_lists_len(v: Seq<usize>, s: Set<int>)
    requires
        lists(v, s),
    ensures
        s.finite(),
        v.len() == s.len(),
    decreases v.len(),
{
    if v.len() == 0 {
        assert(s =~= Set::empty());
    } else {
        let w = v.drop_last();
        let t = s.remove(v.last() as int);
        assert forall|c: int| #[trigger] t.contains(c) implies 0 <= c <= usize::MAX && w.contains(
            c as usize,
        ) by {
            assert(s.contains(c));
            let i = choose|i: int| 0 <= i < v.len() && v[i] == c as usize;
            assert(w[i] == c as usize);
        }
        assert forall|i: int| 0 <= i < w.len() implies t.contains(#[trigger] w[i] as int) by {
            assert(w[i] == v[i]);
        }
        lemma_lists_len(w, t);
        assert(s =~= t.insert(v.last() as int));
    }
}

/// The members of `s` below `n`.
spec fn below(s: Set<int>, n: int) -> Set<int> {
    s.intersect(set_int_range(0, n))
}

proof fn lemma_below_step(s: Set<int>, n: int)
    requires
        0 <= n,
    ensures
        below(s, n).finite(),
        below(s, n).len() <= n,
        below(s, n + 1).finite(),
        s.contains(n) ==> below(s, n + 1).len() == below(s, n).len() + 1,
        !s.contains(n) ==> below(s, n + 1) == below(s, n),
{
    lemma_int_range(0, n);
    lemma_len_subset(below(s, n), set_int_range(0, n));
    lemma_int_range(0, n + 1);
    lemma_len_subset(below(s, n + 1), set_int_range(0, n + 1));
    if s.contains(n) {
        assert(below(s, n + 1) =~= below(s, n).insert(n));
    } else {
        assert(below(s, n + 1) =~= below(s, n));
    }
}

/// The set of the CPUs `lo` to `hi`.
pub open spec fn span(lo: int, hi: int) -> Set<int> {
    Set::new(|c: int| lo <= c <= hi)
}

/// The range one cpulist element writes: `LO-HI`, or one CPU.
pub open spec fn range_of(part: Seq<char>) -> Option<(nat, nat)> {
    let ends = match text::cut(part, '-') {
        Some(p) => p,
        None => (part, part),
    };
    match (
        text::number_of(ends.0, usize::MAX as nat),
        text::number_of(ends.1, usize::MAX as nat),
    ) {
        (Some(lo), Some(hi)) => if lo <= hi {
            Some((lo, hi))
        } else {
            None
        },
        _ => None,
    }
}

/// `acc` with the ranges of `parts` added, or the first part that is no range.
/// Empty parts count for nothing.
pub open spec fn ranges_set(parts: Seq<Seq<char>>, acc: Set<int>) -> Result<Set<int>, Seq<char>>
    decreases parts.len(),
{
    if parts.len() == 0 {
        Ok(acc)
    } else if parts[0].len() == 0 {
        ranges_set(parts.drop_first(), acc)
    } else {
        match range_of(parts[0]) {
            Some(r) => ranges_set(parts.drop_first(), acc.union(span(r.0 as int, r.1 as int))),
            None => Err(parts[0]),
        }
    }
}

/// What a cpulist text means: the set it lists, or the part that is no range.
pub open spec fn cpulist_meaning(s: Seq<char>) -> Result<Set<int>, Seq<char>> {
    ranges_set(text::split_at_each(text::trimmed(s), ','), Set::empty())
}

/// `runs` are the maximal runs of consecutive members of `s`, ascending.
pub open spec fn is_run_list(runs: Seq<(usize, usize)>, s: Set<int>) -> bool {
    &&& forall|i: int| 0 <= i < runs.len() ==> (#[trigger] runs[i]).0 <= runs[i].1
    &&& forall|i: int, j: int| 0 <= i < j < runs.len() ==> runs[i].1 + 1 < runs[j].0
    &&& forall|i: int, c: int|
        0 <= i < runs.len() && (#[trigger] runs[i]).0 <= c <= runs[i].1 ==> #[trigger] s.contains(c)
    &&& forall|c: int| #[trigger] s.contains(c) ==> in_some_run(runs, c)
}

/// Whether `c` lies in one of `runs`.
pub open spec fn in_some_run(runs: Seq<(usize, usize)>, c: int) -> bool {
    exists|i: int| 0 <= i < runs.len() && (#[trigger] runs[i]).0 <= c <= runs[i].1
}

/// One run as cpulist text.
pub open spec fn run_text(run: (usize, usize)) -> Seq<char> {
    if run.0 == run.1 {
        text::decimal(run.0 as nat)
    } else {
        text::decimal(run.0 as nat) + seq!['-'] + text::decimal(run.1 as nat)
    }
}

/// A list of runs as cpulist text.
pub open spec fn runs_text(runs: Seq<(usize, usize)>) -> Seq<char> {
    text::joined(runs.map_values(|r: (usize, usize)| run_text(r)), ',')
}

proof fn lemma_decimal_has_no(n: nat, c: char)
    requires
        !text::is_digit(c),
    ensures
        text::before(text::decimal(n), c) == text::decimal(n).len(),
{
    text::lemma_decimal(n);
    let d = text::decimal(n);
    assert forall|j: int| 0 <= j < d.len() implies d[j] != c by {
        assert(text::is_digit(d[j]));
    }
    text::lemma_before_is(d, c, d.len() as int);
}

proof fn lemma_run_text(run: (usize, usize))
    requires
        run.0 <= run.1,
    ensures
        range_of(run_text(run)) == Some((run.0 as nat, run.1 as nat)),
        text::before(run_text(run), ',') == run_text(run).len(),
        run_text(run).len() > 0,
        text::is_digit(run_text(run)[0]),
        text::is_digit(run_text(run).last()),
{
    let lo = text::decimal(run.0 as nat);
    let hi = text::decimal(run.1 as nat);
    let t = run_text(run);
    text::lemma_decimal(run.0 as nat);
    text::lemma_decimal(run.1 as nat);
    text::lemma_number_of_decimal(run.0 as nat, usize::MAX as nat);
    text::lemma_number_of_decimal(run.1 as nat, usize::MAX as nat);
    lemma_decimal_has_no(run.0 as nat, '-');
    lemma_decimal_has_no(run.0 as nat, ',');
    lemma_decimal_has_no(run.1 as nat, ',');
    assert(text::is_digit(lo[0]) && text::is_digit(hi[hi.len() - 1]));
    if run.0 != run.1 {
        let i = lo.len() as int;
        text::lemma_before(lo, '-');
        assert forall|j: int| 0 <= j < i implies t[j] != '-' by {
            assert(t[j] == lo[j]);
        }
        text::lemma_before_is(t, '-', i);
        assert(t.take(i) =~= lo);
        assert(t.skip(i + 1) =~= hi);
        text::lemma_before(lo, ',');
        text::lemma_before(hi, ',');
        assert forall|j: int| 0 <= j < t.len() implies t[j] != ',' by {
            if j < i {
                assert(t[j] == lo[j]);
            } else if j > i {
                assert(t[j] == hi[j - i - 1]);
            }
        }
        text::lemma_before_is(t, ',', t.len() as int);
        assert(t.last() == hi.last());
    } else {
        assert(lo == hi);
    }
}

proof fn lemma_ranges_of_runs(runs: Seq<(usize, usize)>, acc: Set<int>, s: Set<int>)
    requires
        forall|i: int| 0 <= i < runs.len() ==> (#[trigger] runs[i]).0 <= runs[i].1,
        forall|c: int| #[trigger] s.contains(c) <==> acc.contains(c) || in_some_run(runs, c),
    ensures
        ranges_set(runs.map_values(|r: (usize, usize)| run_text(r)), acc) == Ok::<
            Set<int>,
            Seq<char>,
        >(s),
    decreases runs.len(),
{
    let parts = runs.map_values(|r: (usize, usize)| run_text(r));
    if runs.len() == 0 {
        assert(acc =~= s);
    } else {
        lemma_run_text(runs[0]);
        let rest = runs.drop_first();
        let acc2 = acc.union(span(runs[0].0 as int, runs[0].1 as int));
        assert(parts[0] == run_text(runs[0]));
        assert(parts.drop_first() =~= rest.map_values(|r: (usize, usize)| run_text(r)));
        assert forall|c: int| #[trigger] s.contains(c) <==> acc2.contains(c) || in_some_run(
            rest,
            c,
        ) by {
            if in_some_run(runs, c) {
                let i = choose|i: int|
                    0 <= i < runs.len() && (#[trigger] runs[i]).0 <= c <= runs[i].1;
                if i > 0 {
                    assert(rest[i - 1] == runs[i]);
                }
            }
            if in_some_run(rest, c) {
                let i = choose|i: int|
                    0 <= i < rest.len() && (#[trigger] rest[i]).0 <= c <= rest[i].1;
                assert(runs[i + 1] == rest[i]);
            }
            if runs[0].0 <= c <= runs[0].1 {
                assert(in_some_run(runs, c));
            }
        }
        lemma_ranges_of_runs(rest, acc2, s);
    }
}

proof fn lemma_joined_ends(parts: Seq<Seq<char>>, c: char)
    requires
        parts.len() > 0,
        forall|i: int| 0 <= i < parts.len() ==> (#[trigger] parts[i]).len() > 0,
    ensures
        text::joined(parts, c).len() > 0,
        text::joined(parts, c)[0] == parts[0][0],
        text::joined(parts, c).last() == parts.last().last(),
    decreases parts.len(),
{
    assert(parts[0].len() > 0);
    if parts.len() > 1 {
        let rest = parts.drop_first();
        assert forall|i: int| 0 <= i < rest.len() implies (#[trigger] rest[i]).len() > 0 by {
            assert(rest[i] == parts[i + 1]);
        }
        lemma_joined_ends(rest, c);
        assert(rest.last() == parts.last());
    }
}

/// Parsing undoes formatting: the text of a set's runs means that set.
pub proof fn lemma_cpulist_round_trip(s: Set<int>, runs: Seq<(usize, usize)>)
    requires
        is_run_list(runs, s),
    ensures
        cpulist_meaning(runs_text(runs)) == Ok::<Set<int>, Seq<char>>(s),
{
    let parts = runs.map_values(|r: (usize, usize)| run_text(r));
    let t = runs_text(runs);
    if runs.len() == 0 {
        assert(s =~= Set::empty());
        assert(t =~= seq![]);
        assert(text::trimmed(t) =~= t);
        let split = text::split_at_each(t, ',');
        assert(split =~= seq![t]);
        assert(split.drop_first() =~= seq![]);
        assert(ranges_set(split.drop_first(), Set::empty()) == Ok::<Set<int>, Seq<char>>(
            Set::empty(),
        ));
    } else {
        assert forall|i: int| 0 <= i < parts.len() implies text::before(#[trigger] parts[i], ',')
            == parts[i].len() by {
            lemma_run_text(runs[i]);
        }
        assert forall|i: int| 0 <= i < parts.len() implies (#[trigger] parts[i]).len() > 0 by {
            lemma_run_text(runs[i]);
        }
        text::lemma_split_joined(parts, ',');
        lemma_joined_ends(parts, ',');
        lemma_run_text(runs[0]);
        lemma_run_text(runs.last());
        assert(parts.last() == run_text(runs.last()));
        text::lemma_trimmed_id(t);
        assert forall|c: int| #[trigger] s.contains(c) <==> Set::<int>::empty().contains(c)
            || in_some_run(runs, c) by {
            if in_some_run(runs, c) {
                let i = choose|i: int|
                    0 <= i < runs.len() && (#[trigger] runs[i]).0 <= c <= runs[i].1;
                assert(s.contains(c));
            }
        }
        lemma_ranges_of_runs(runs, Set::empty(), s);
    }
}

impl View for CpuSet {
    type V = Set<int>;

    closed spec fn view(&self) -> Set<int> {
        Set::new(|c: int| in_words(self.words@, c))
    }
}

impl Clone for CpuSet {
    fn clone(&self) -> (r: CpuSet)
        ensures
            r@ == self@,
    {
        let n: usize = self.words.len();
        let mut words: Vec<u64> = Vec::with_capacity(n);
        for i in 0..n
            invariant
                n == self.words@.len(),
                words@ == self.words@.take(i as int),
        {
            words.push(self.words[i]);
            assert(self.words@.take(i as int + 1) =~= self.words@.take(i as int).push(
                self.words@[i as int],
            ));
        }
        assert(words@ =~= self.words@);
        CpuSet { words }
    }
}

impl Default for CpuSet {
    fn default() -> (r: CpuSet)
        ensures
            r@ == Set::<int>::empty(),
    {
        CpuSet::new()
    }
}

impl CpuSet {
    /// Every CPU set is finite, and its members are CPU ids.
    pub proof fn lemma_members(&self)
        ensures
            self@.finite(),
            forall|c: int| #[trigger] self@.contains(c) ==> 0 <= c <= usize::MAX,
    {
        lemma_int_range(0, usize::MAX + 1);
        assert(self@.subset_of(set_int_range(0, usize::MAX + 1)));
        lemma_set_subset_finite(set_int_range(0, usize::MAX + 1), self@);
    }

    /// The empty set.
    pub fn new() -> (r: CpuSet)
        ensures
            r@ == Set::<int>::empty(),
    {
        let r = CpuSet { words: Vec::new() };
        assert(r@ =~= Set::empty());
        r
    }

    /// Add `cpu` to the set.
    pub fn set(&mut self, cpu: usize)
        ensures
            final(self)@ == old(self)@.insert(cpu as int),
    {
        let word: usize = cpu / BITS_PER_WORD;
        let ghost start = self.words@;
        while self.words.len() <= word
            invariant
                word == cpu / 64,
                self.words@.len() >= start.len(),
                self.words@.len() <= word + 1 || self.words@ == start,
                forall|i: int| 0 <= i < start.len() ==> self.words@[i] == start[i],
                forall|i: int| start.len() <= i < self.words@.len() ==> self.words@[i] == 0,
            decreases word + 1 - self.words@.len(),
        {
            self.words.push(0);
        }
        let b: u64 = (cpu % BITS_PER_WORD) as u64;
        let w: u64 = self.words[word];
        self.words[word] = w | (1u64 << b);
        proof {
            assert forall|c: int| in_words(self.words@, c) == (in_words(start, c) || c == cpu) by {
                if 0 <= c <= usize::MAX && c / 64 < self.words@.len() {
                    lemma_bit_ops(w, 1u64 << b, (c % 64) as u64);
                    lemma_one_bit(b, (c % 64) as u64);
                    if c / 64 == word as int && c % 64 == b {
                        assert(c == cpu);
                    }
                }
            }
            assert forall|c: int| #[trigger] self@.contains(c) == old(self)@.insert(
                cpu as int,
            ).contains(c) by {
                assert(in_words(self.words@, c) == (in_words(start, c) || c == cpu));
                assert(old(self)@.contains(c) == in_words(start, c));
            }
            assert(self@ =~= old(self)@.insert(cpu as int));
        }
    }

    /// Remove `cpu` from the set.
    pub fn clear(&mut self, cpu: usize)
        ensures
            final(self)@ == old(self)@.remove(cpu as int),
    {
        let word: usize = cpu / BITS_PER_WORD;
        let ghost start = self.words@;
        if word < self.words.len() {
            let b: u64 = (cpu % BITS_PER_WORD) as u64;
            let w: u64 = self.words[word];
            self.words[word] = w & !(1u64 << b);
            proof {
                assert forall|c: int| in_words(self.words@, c) == (in_words(start, c) && c
                    != cpu) by {
                    if 0 <= c <= usize::MAX && c / 64 < self.words@.len() {
                        lemma_bit_ops(w, 1u64 << b, (c % 64) as u64);
                        lemma_one_bit(b, (c % 64) as u64);
                        if c / 64 == word as int && c % 64 == b {
                            assert(c == cpu);
                        }
                    }
                }
            }
        }
        assert(self@ =~= old(self)@.remove(cpu as int));
    }

    /// Whether `cpu` is in the set.
    pub fn test(&self, cpu: usize) -> (r: bool)
        ensures
            r == self@.contains(cpu as int),
    {
        let word: usize = cpu / BITS_PER_WORD;
        if word < self.words.len() {
            let b: u64 = (cpu % BITS_PER_WORD) as u64;
            self.words[word] & (1u64 << b) != 0
        } else {
            false
        }
    }

    /// Number of CPUs in the set.
    pub fn weight(&self) -> (r: usize)
        requires
            self@.len() <= usize::MAX,
        ensures
            r == self@.len(),
    {
        let mut c: usize = 0;
        let mut count: usize = 0;
        proof {
            self.lemma_members();
            lemma_int_range(0, 0);
            assert(below(self@, 0) =~= Set::empty());
        }
        while c / BITS_PER_WORD < self.words.len()
            invariant
                count == below(self@, c as int).len(),
                self@.len() <= usize::MAX,
            decreases usize::MAX - c,
        {
            proof {
                self.lemma_members();
                lemma_below_step(self@, c as int);
                lemma_len_subset(below(self@, c as int + 1), self@);
            }
            if self.test(c) {
                count = count + 1;
            }
            if c == usize::MAX {
                assert(below(self@, c as int + 1) =~= self@);
                return count;
            }
            c = c + 1;
        }
        assert(below(self@, c as int) =~= self@);
        count
    }

    /// Whether the set is empty.
    pub fn is_empty(&self) -> (r: bool)
        ensures
            r == (self@ == Set::<int>::empty()),
    {
        let r = self.first().is_none();
        proof {
            if r {
                assert(self@ =~= Set::empty());
            }
        }
        r
    }

    /// Lowest CPU in the set.
    pub fn first(&self) -> (r: Option<usize>)
        ensures
            match r {
                Some(c) => self@.contains(c as int) && forall|x: int| #[trigger]
                    self@.contains(x) ==> c <= x,
                None => self@ == Set::<int>::empty(),
            },
    {
        let mut c: usize = 0;
        while c / BITS_PER_WORD < self.words.len()
            invariant
                forall|x: int| #[trigger] self@.contains(x) ==> c <= x,
            decreases usize::MAX - c,
        {
            if self.test(c) {
                return Some(c);
            }
            if c == usize::MAX {
                assert(self@ =~= Set::empty());
                return None;
            }
            c = c + 1;
        }
        assert(self@ =~= Set::empty());
        None
    }

    /// Highest CPU in the set.
    pub fn last(&self) -> (r: Option<usize>)
        ensures
            match r {
                Some(c) => self@.contains(c as int) && forall|x: int| #[trigger]
                    self@.contains(x) ==> x <= c,
                None => self@ == Set::<int>::empty(),
            },
    {
        let mut found: Option<usize> = None;
        let mut c: usize = 0;
        while c / BITS_PER_WORD < self.words.len()
            invariant
                match found {
                    Some(f) => self@.contains(f as int) && f < c && forall|x: int| #[trigger]
                        self@.contains(x) && x < c ==> x <= f,
                    None => forall|x: int| #[trigger] self@.contains(x) ==> c <= x,
                },
            decreases usize::MAX - c,
        {
            if self.test(c) {
                found = Some(c);
            }
            if c == usize::MAX {
                assert(found is None ==> self@ =~= Set::empty());
                return found;
            }
            c = c + 1;
        }
        assert(found is None ==> self@ =~= Set::empty());
        found
    }

    /// The CPUs in the set in ascending order.
    pub fn iter(&self) -> (v: Vec<usize>)
        ensures
            lists(v@, self@),
    {
        let mut v: Vec<usize> = Vec::new();
        let mut c: usize = 0;
        while c / BITS_PER_WORD < self.words.len()
            invariant
                forall|i: int, j: int| 0 <= i < j < v@.len() ==> v@[i] < v@[j],
                forall|i: int|
                    0 <= i < v@.len() ==> self@.contains(#[trigger] v@[i] as int) && v@[i] < c,
                forall|x: int|
                    #[trigger] self@.contains(x) ==> 0 <= x <= usize::MAX && (x < c
                        ==> v@.contains(x as usize)),
            decreases usize::MAX - c,
        {
            let ghost before = v@;
            if self.test(c) {
                v.push(c);
            }
            proof {
                assert forall|x: int| #[trigger] self@.contains(x) && x < c + 1 implies v@.contains(
                    x as usize,
                ) by {
                    if x < c {
                        let i = choose|i: int| 0 <= i < before.len() && before[i] == x as usize;
                        assert(v@[i] == x as usize);
                    } else {
                        assert(v@[v@.len() - 1] == x as usize);
                    }
                }
            }
            if c == usize::MAX {
                return v;
            }
            c = c + 1;
        }
        v
    }

    /// `self & other`.
    pub fn and(&self, other: &CpuSet) -> (r: CpuSet)
        ensures
            r@ == self@.intersect(other@),
    {
        let n: usize = if self.words.len() < other.words.len() {
            self.words.len()
        } else {
            other.words.len()
        };
        let mut words: Vec<u64> = Vec::with_capacity(n);
        for i in 0..n
            invariant
                n <= self.words@.len(),
                n <= other.words@.len(),
                words@.len() == i,
                forall|j: int| 0 <= j < i ==> words@[j] == self.words@[j] & other.words@[j],
        {
            words.push(self.words[i] & other.words[i]);
        }
        let r = CpuSet { words };
        proof {
            assert forall|c: int| in_words(words@, c) == (in_words(self.words@, c) && in_words(
                other.words@,
                c,
            )) by {
                if 0 <= c <= usize::MAX && c / 64 < n {
                    lemma_bit_ops(self.words@[c / 64], other.words@[c / 64], (c % 64) as u64);
                }
            }
            assert(r@ =~= self@.intersect(other@));
        }
        r
    }

    /// `self | other`.
    pub fn or(&self, other: &CpuSet) -> (r: CpuSet)
        ensures
            r@ == self@.union(other@),
    {
        let n: usize = if self.words.len() < other.words.len() {
            other.words.len()
        } else {
            self.words.len()
        };
        let mut words: Vec<u64> = Vec::with_capacity(n);
        for i in 0..n
            invariant
                self.words@.len() <= n,
                other.words@.len() <= n,
                words@.len() == i,
                forall|j: int|
                    0 <= j < i ==> words@[j] == word_at(self.words@, j) | word_at(other.words@, j),
        {
            words.push(self.word(i) | other.word(i));
        }
        let r = CpuSet { words };
        proof {
            assert forall|c: int| in_words(words@, c) == (in_words(self.words@, c) || in_words(
                other.words@,
                c,
            )) by {
                if 0 <= c <= usize::MAX && c / 64 < n {
                    lemma_bit_ops(
                        word_at(self.words@, c / 64),
                        word_at(other.words@, c / 64),
                        (c % 64) as u64,
                    );
                }
            }
            assert(r@ =~= self@.union(other@));
        }
        r
    }

    /// `self & !other`.
    pub fn andnot(&self, other: &CpuSet) -> (r: CpuSet)
        ensures
            r@ == self@.difference(other@),
    {
        let n: usize = self.words.len();
        let mut words: Vec<u64> = Vec::with_capacity(n);
        for i in 0..n
            invariant
                n == self.words@.len(),
                words@.len() == i,
                forall|j: int|
                    0 <= j < i ==> words@[j] == self.words@[j] & !word_at(other.words@, j),
        {
            words.push(self.words[i] & !other.word(i));
        }
        let r = CpuSet { words };
        proof {
            assert forall|c: int| in_words(words@, c) == (in_words(self.words@, c) && !in_words(
                other.words@,
                c,
            )) by {
                if 0 <= c <= usize::MAX && c / 64 < n {
                    lemma_bit_ops(
                        self.words@[c / 64],
                        word_at(other.words@, c / 64),
                        (c % 64) as u64,
                    );
                }
            }
            assert(r@ =~= self@.difference(other@));
        }
        r
    }

    /// The word at `i`, zero past the end.
    fn word(&self, i: usize) -> (w: u64)
        ensures
            w == word_at(self.words@, i as int),
    {
        if i < self.words.len() {
            self.words[i]
        } else {
            0
        }
    }

    /// Whether the sets share any CPU.
    pub fn intersects(&self, other: &CpuSet) -> (r: bool)
        ensures
            r == !self@.disjoint(other@),
    {
        let both = self.and(other);
        let r = !both.is_empty();
        proof {
            if r {
                let c = both.first_member();
                assert(self@.contains(c) && other@.contains(c));
            } else {
                assert forall|c: int| self@.contains(c) implies !other@.contains(c) by {
                    assert(!both@.contains(c));
                }
            }
        }
        r
    }

    /// Some member of a set that is not empty.
    proof fn first_member(&self) -> (c: int)
        requires
            self@ != Set::<int>::empty(),
        ensures
            self@.contains(c),
    {
        if forall|c: int| !self@.contains(c) {
            assert(self@ =~= Set::empty());
        }
        choose|c: int| self@.contains(c)
    }

    /// Add the CPUs `lo` to `hi`.
    fn set_span(&mut self, lo: usize, hi: usize)
        requires
            lo <= hi,
        ensures
            final(self)@ == old(self)@.union(span(lo as int, hi as int)),
    {
        let mut cpu: usize = lo;
        assert(self@ =~= old(self)@.union(span(lo as int, lo as int - 1)));
        while cpu < hi
            invariant
                lo <= cpu <= hi,
                self@ == old(self)@.union(span(lo as int, cpu as int - 1)),
            decreases hi - cpu,
        {
            self.set(cpu);
            assert(self@ =~= old(self)@.union(span(lo as int, cpu as int)));
            cpu = cpu + 1;
        }
        self.set(hi);
        assert(self@ =~= old(self)@.union(span(lo as int, hi as int)));
    }

    /// Parse the sysfs cpulist format, e.g. `"0-3,8,10-11"`. An empty (or
    /// whitespace-only) string is the empty set.
    pub fn from_cpulist(s: &str) -> (r: Result<CpuSet, CpuListError>)
        ensures
            match r {
                Ok(set) => cpulist_meaning(s@) == Ok::<Set<int>, Seq<char>>(set@),
                Err(e) => cpulist_meaning(s@) == Err::<Set<int>, Seq<char>>(e.part@),
            },
    {
        let all = text::chars_of(s);
        let parts = text::split(text::trim(all.as_slice()), ',');
        let ghost texts = parts@.map_values(|p: Vec<char>| p@);
        let mut set = CpuSet::new();
        let n: usize = parts.len();
        assert(texts.skip(0) =~= texts);
        for i in 0..n
            invariant
                n == parts@.len(),
                texts == parts@.map_values(|p: Vec<char>| p@),
                cpulist_meaning(s@) == ranges_set(texts.skip(i as int), set@),
        {
            let part = &parts[i];
            assert(texts.skip(i as int)[0] == part@);
            assert(texts.skip(i as int).drop_first() =~= texts.skip(i as int + 1));
            if part.len() > 0 {
                let whole = part.as_slice();
                let (lo, hi) = match text::split_once(whole, '-') {
                    Some(p) => p,
                    None => (whole, whole),
                };
                match (text::parse_usize(lo), text::parse_usize(hi)) {
                    (Some(lo), Some(hi)) if lo <= hi => {
                        set.set_span(lo, hi);
                    },
                    _ => {
                        return Err(CpuListError { part: text::string_of(whole) });
                    },
                }
            }
        }
        assert(texts.skip(n as int) =~= seq![]);
        Ok(set)
    }

    /// The set of the CPUs in `cpus`.
    pub fn from_iter(cpus: &[usize]) -> (r: CpuSet)
        ensures
            forall|c: int| #[trigger]
                r@.contains(c) <==> 0 <= c <= usize::MAX && cpus@.contains(c as usize),
    {
        let mut set = CpuSet::new();
        let n: usize = cpus.len();
        for i in 0..n
            invariant
                n == cpus@.len(),
                forall|c: int| #[trigger]
                    set@.contains(c) <==> 0 <= c <= usize::MAX && cpus@.take(i as int).contains(
                        c as usize,
                    ),
        {
            let ghost before = set@;
            set.set(cpus[i]);
            proof {
                let t = cpus@.take(i as int);
                let u = cpus@.take(i as int + 1);
                assert(u =~= t.push(cpus@[i as int]));
                assert forall|c: int| #[trigger]
                    set@.contains(c) <==> 0 <= c <= usize::MAX && u.contains(c as usize) by {
                    if 0 <= c <= usize::MAX && u.contains(c as usize) {
                        let k = choose|k: int| 0 <= k < u.len() && u[k] == c as usize;
                        if k < i {
                            assert(t[k] == c as usize);
                        }
                    }
                    if before.contains(c) {
                        let k = choose|k: int| 0 <= k < t.len() && t[k] == c as usize;
                        assert(u[k] == c as usize);
                    }
                    if c == cpus@[i as int] {
                        assert(u[i as int] == c as usize);
                    }
                }
            }
        }
        assert(cpus@.take(n as int) =~= cpus@);
        set
    }

    /// The maximal runs of consecutive CPUs, ascending.
    fn runs(&self) -> (runs: Vec<(usize, usize)>)
        ensures
            is_run_list(runs@, self@),
    {
        let cpus = self.iter();
        let mut runs: Vec<(usize, usize)> = Vec::new();
        let n: usize = cpus.len();
        for k in 0..n
            invariant
                n == cpus@.len(),
                lists(cpus@, self@),
                k == 0 ==> runs@.len() == 0,
                k > 0 ==> runs@.len() > 0 && runs@.last().1 == cpus@[k - 1],
                forall|i: int| 0 <= i < runs@.len() ==> (#[trigger] runs@[i]).0 <= runs@[i].1,
                forall|i: int, j: int| 0 <= i < j < runs@.len() ==> runs@[i].1 + 1 < runs@[j].0,
                forall|i: int, c: int|
                    0 <= i < runs@.len() && (#[trigger] runs@[i]).0 <= c <= runs@[i].1
                        ==> #[trigger] self@.contains(c),
                forall|m: int| 0 <= m < k ==> in_some_run(runs@, #[trigger] cpus@[m] as int),
        {
            let cpu: usize = cpus[k];
            let ghost before = runs@;
            let m: usize = runs.len();
            if m > 0 && cpu > 0 && runs[m - 1].1 == cpu - 1 {
                let lo: usize = runs[m - 1].0;
                runs[m - 1] = (lo, cpu);
                proof {
                    assert forall|q: int| 0 <= q < k + 1 implies in_some_run(
                        runs@,
                        #[trigger] cpus@[q] as int,
                    ) by {
                        if q < k {
                            assert(in_some_run(before, cpus@[q] as int));
                            let i = choose|i: int|
                                0 <= i < before.len() && (#[trigger] before[i]).0 <= cpus@[q]
                                    <= before[i].1;
                            assert(runs@[i].0 <= cpus@[q] <= runs@[i].1);
                        } else {
                            assert(runs@[m - 1].0 <= cpu <= runs@[m - 1].1);
                        }
                    }
                }
            } else {
                runs.push((cpu, cpu));
                proof {
                    if k > 0 {
                        assert(cpus@[k - 1] < cpus@[k as int]);
                        assert(before[m - 1] == before.last());
                    }
                    assert forall|q: int| 0 <= q < k + 1 implies in_some_run(
                        runs@,
                        #[trigger] cpus@[q] as int,
                    ) by {
                        if q < k {
                            assert(in_some_run(before, cpus@[q] as int));
                            let i = choose|i: int|
                                0 <= i < before.len() && (#[trigger] before[i]).0 <= cpus@[q]
                                    <= before[i].1;
                            assert(runs@[i] == before[i]);
                        } else {
                            assert(runs@[m as int].0 <= cpu <= runs@[m as int].1);
                        }
                    }
                }
            }
        }
        proof {
            assert forall|c: int| #[trigger] self@.contains(c) implies in_some_run(runs@, c) by {
                let q = choose|q: int| 0 <= q < cpus@.len() && cpus@[q] == c as usize;
                assert(in_some_run(runs@, cpus@[q] as int));
            }
        }
        runs
    }

    /// Formats as a cpulist (`0-3,8`), the inverse of
    /// [`CpuSet::from_cpulist`].
    pub fn to_string(&self) -> (r: String)
        ensures
            exists|runs: Seq<(usize, usize)>| #[trigger] is_run_list(runs, self@) && r@
                == runs_text(runs),
            cpulist_meaning(r@) == Ok::<Set<int>, Seq<char>>(self@),
    {
        let runs = self.runs();
        let ghost texts = runs@.map_values(|r: (usize, usize)| run_text(r));
        let mut out: String = String::new();
        let n: usize = runs.len();
        proof {
            lemma_joined_from(texts, ',', 0);
        }
        for i in 0..n
            invariant
                n == runs@.len(),
                texts == runs@.map_values(|r: (usize, usize)| run_text(r)),
                text::joined(texts, ',') == out@ + joined_from(texts, ',', i as int),
        {
            if i > 0 {
                out.push(',');
            }
            let (lo, hi): (usize, usize) = runs[i];
            let lo_text = text::decimal_of(lo as u64);
            text::push_chars(&mut out, lo_text.as_slice());
            if lo != hi {
                out.push('-');
                let hi_text = text::decimal_of(hi as u64);
                text::push_chars(&mut out, hi_text.as_slice());
            }
            proof {
                assert(texts[i as int] == run_text(runs@[i as int]));
                assert(text::joined(texts, ',') =~= out@ + joined_from(texts, ',', i as int + 1));
            }
        }
        proof {
            assert(out@ =~= text::joined(texts, ','));
            lemma_cpulist_round_trip(self@, runs@);
        }
        out
    }
}

/// The word at `i`, zero past the end.
spec fn word_at(words: Seq<u64>, i: int) -> u64 {
    if i < words.len() {
        words[i]
    } else {
        0
    }
}

/// What the parts from `i` on add to a joined text, separators before them
/// included.
spec fn joined_from(parts: Seq<Seq<char>>, c: char, i: int) -> Seq<char>
    decreases parts.len() - i,
{
    if i >= parts.len() {
        seq![]
    } else if i == 0 {
        parts[0] + joined_from(parts, c, 1)
    } else {
        seq![c] + parts[i] + joined_from(parts, c, i + 1)
    }
}

proof fn lemma_joined_from(parts: Seq<Seq<char>>, c: char, i: int)
    requires
        0 <= i <= parts.len(),
    ensures
        i == 0 ==> joined_from(parts, c, i) == text::joined(parts, c),
        i > 0 && i < parts.len() ==> joined_from(parts, c, i) == seq![c] + text::joined(
            parts.skip(i),
            c,
        ),
    decreases parts.len() - i,
{
    if i < parts.len() {
        lemma_joined_from(parts, c, i + 1);
        let rest = parts.skip(i);
        assert(rest[0] == parts[i]);
        assert(rest.drop_first() =~= parts.skip(i + 1));
        if i + 1 < parts.len() {
            assert(joined_from(parts, c, i + 1) == seq![c] + text::joined(parts.skip(i + 1), c));
            assert(text::joined(rest, c) == parts[i] + seq![c] + text::joined(
                parts.skip(i + 1),
                c,
            ));
        } else {
            assert(joined_from(parts, c, i + 1) =~= seq![]);
            assert(text::joined(rest, c) == parts[i]);
        }
        if i == 0 {
            assert(parts.skip(0) =~= parts);
            assert(joined_from(parts, c, 0) =~= text::joined(parts, c));
        } else {
            assert(joined_from(parts, c, i) =~= seq![c] + text::joined(rest, c));
        }
    } else if i == 0 {
        assert(joined_from(parts, c, 0) =~= text::joined(parts, c));
    }
}

/// A list element `LO-HI` is the CPUs from `LO` to `HI`, both of them in; one
/// number is that CPU; a range that runs backwards is none.
pub proof fn lemma_range_of(lo: usize, hi: usize)
    ensures
        lo <= hi ==> range_of(
            text::decimal(lo as nat) + seq!['-'] + text::decimal(hi as nat),
        ) == Some((lo as nat, hi as nat)),
        lo > hi ==> range_of(
            text::decimal(lo as nat) + seq!['-'] + text::decimal(hi as nat),
        ) is None,
        range_of(text::decimal(lo as nat)) == Some((lo as nat, lo as nat)),
        forall|c: int| #[trigger] span(lo as int, hi as int).contains(c) <==> lo <= c <= hi,
{
    let a = text::decimal(lo as nat);
    let b = text::decimal(hi as nat);
    lemma_decimal_has_no(lo as nat, '-');
    assert forall|i: int| 0 <= i < a.len() implies #[trigger] a[i] != '-' by {
        text::lemma_before(a, '-');
    }
    text::lemma_cut(a, '-', b);
    text::lemma_number_of_decimal(lo as nat, usize::MAX as nat);
    text::lemma_number_of_decimal(hi as nat, usize::MAX as nat);
}

/// A list means the CPUs of its elements together; an element that is no range
/// makes the whole list an error, whatever stands around it.
pub proof fn lemma_list_adds(parts: Seq<Seq<char>>, acc: Set<int>, k: int, c: int)
    requires
        0 <= k < parts.len(),
        forall|i: int| 0 <= i < k ==> (#[trigger] parts[i]).len() == 0 || range_of(parts[i]) is Some,
    ensures
        parts[k].len() > 0 && range_of(parts[k]) is None ==> ranges_set(parts, acc) == Err::<
            Set<int>,
            Seq<char>,
        >(parts[k]),
        ranges_set(parts, acc) matches Ok(s) ==> (parts[k].len() > 0 ==> (range_of(
            parts[k],
        )->Some_0.0 <= c <= range_of(parts[k])->Some_0.1 ==> s.contains(c))) && (acc.contains(c)
            ==> s.contains(c)),
    decreases parts.len(),
{
    let rest = parts.drop_first();
    let next = if parts[0].len() == 0 {
        acc
    } else {
        acc.union(span(range_of(parts[0])->Some_0.0 as int, range_of(parts[0])->Some_0.1 as int))
    };
    if k > 0 {
        assert(parts[0].len() == 0 || range_of(parts[0]) is Some);
        assert forall|i: int| 0 <= i < k - 1 implies (#[trigger] rest[i]).len() == 0 || range_of(
            rest[i],
        ) is Some by {
            assert(rest[i] == parts[i + 1]);
        }
        lemma_list_adds(rest, next, k - 1, c);
    } else if parts[0].len() == 0 || range_of(parts[0]) is Some {
        if next.contains(c) {
            lemma_ranges_keep(rest, next, c);
        }
    }
}

proof fn lemma_ranges_keep(parts: Seq<Seq<char>>, acc: Set<int>, c: int)
    requires
        acc.contains(c),
    ensures
        ranges_set(parts, acc) matches Ok(s) ==> s.contains(c),
    decreases parts.len(),
{
    if parts.len() > 0 {
        if parts[0].len() == 0 {
            lemma_ranges_keep(parts.drop_first(), acc, c);
        } else if let Some(r) = range_of(parts[0]) {
            lemma_ranges_keep(parts.drop_first(), acc.union(span(r.0 as int, r.1 as int)), c);
        }
    }
}

} // verus!
