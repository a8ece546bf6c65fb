//! Text as sequences of characters: the scanning, splitting, number and
//! comparison primitives the parsers and formatters of this crate share.
//!
//! Everything here works on `char`s rather than bytes, so the specifications
//! speak of `Seq<char>`, the view of `str` and `String`.

use vstd::prelude::*;
use vstd::slice::{slice_subrange, slice_to_vec};

verus! {

/// `String::push` appends one character and leaves the rest alone.
pub assume_specification[ String::push ](s: &mut String, c: char)
    ensures
        final(s)@ == old(s)@.push(c),
;

/// The characters of `s`, in order.
pub fn chars_of(s: &str) -> (v: Vec<char>)
    ensures
        v@ == s@,
{
    let mut v: Vec<char> = Vec::new();
    broadcast use vstd::string::axiom_spec_iter;
    for c in it: s.chars()
        invariant
            v@ == it.seq().take(it.index() as int),
            it.seq() == s@,
    {
        v.push(c);
        assert(it.seq().take(it.index() + 1) =~= it.seq().take(it.index() as int).push(c));
    }
    assert(s@.take(s@.len() as int) =~= s@);
    v
}

/// Appends `cs` to `out`.
pub fn push_chars(out: &mut String, cs: &[char])
    ensures
        final(out)@ == old(out)@ + cs@,
{
    let n: usize = cs.len();
    let ghost before = out@;
    for i in 0..n
        invariant
            n == cs@.len(),
            out@ == before + cs@.take(i as int),
    {
        out.push(cs[i]);
        assert(cs@.take(i as int + 1) =~= cs@.take(i as int).push(cs@[i as int]));
        assert(out@ =~= before + cs@.take(i as int + 1));
    }
    assert(cs@.take(n as int) =~= cs@);
}

/// The string made of `cs`.
pub fn string_of(cs: &[char]) -> (s: String)
    ensures
        s@ == cs@,
{
    let mut s: String = String::new();
    assert(s@ =~= Seq::<char>::empty());
    push_chars(&mut s, cs);
    assert(s@ =~= cs@);
    s
}

/// A copy of `s`.
pub fn owned(s: &str) -> (r: String)
    ensures
        r@ == s@,
{
    let cs = chars_of(s);
    string_of(cs.as_slice())
}

/// Whether two character slices hold the same text.
pub fn same_chars(a: &[char], b: &[char]) -> (r: bool)
    ensures
        r == (a@ == b@),
{
    if a.len() != b.len() {
        return false;
    }
    let n: usize = a.len();
    for i in 0..n
        invariant
            n == a@.len() == b@.len(),
            forall|j: int| 0 <= j < i ==> a@[j] == b@[j],
    {
        if a[i] != b[i] {
            return false;
        }
    }
    assert(a@ =~= b@);
    true
}

/// Whether two strings hold the same text.
pub fn same_text(a: &str, b: &str) -> (r: bool)
    ensures
        r == (a@ == b@),
{
    let x = chars_of(a);
    let y = chars_of(b);
    same_chars(x.as_slice(), y.as_slice())
}

/// Whether `s` begins with `p`.
pub open spec fn has_prefix(s: Seq<char>, p: Seq<char>) -> bool {
    p.len() <= s.len() && s.take(p.len() as int) == p
}

/// Whether `s` begins with `p`.
pub fn starts_with(s: &[char], p: &[char]) -> (r: bool)
    ensures
        r == has_prefix(s@, p@),
{
    if p.len() > s.len() {
        return false;
    }
    let head = slice_subrange(s, 0, p.len());
    same_chars(head, p)
}

/// Code-point order on text, which is also the byte order of its UTF-8 form.
pub open spec fn text_less(a: Seq<char>, b: Seq<char>) -> bool
    decreases a.len(),
{
    if b.len() == 0 {
        false
    } else if a.len() == 0 {
        true
    } else if a[0] != b[0] {
        a[0] < b[0]
    } else {
        text_less(a.drop_first(), b.drop_first())
    }
}

/// Whether `a` sorts strictly before `b`.
pub fn less(a: &[char], b: &[char]) -> (r: bool)
    ensures
        r == text_less(a@, b@),
{
    let mut i: usize = 0;
    assert(a@.skip(0) =~= a@ && b@.skip(0) =~= b@);
    while i < a.len() && i < b.len()
        invariant
            i <= a@.len(),
            i <= b@.len(),
            text_less(a@, b@) == text_less(a@.skip(i as int), b@.skip(i as int)),
        decreases a@.len() - i,
    {
        if a[i] != b[i] {
            return a[i] < b[i];
        }
        assert(a@.skip(i as int).drop_first() =~= a@.skip(i as int + 1));
        assert(b@.skip(i as int).drop_first() =~= b@.skip(i as int + 1));
        i = i + 1;
    }
    i < b.len()
}

/// Text order is irreflexive.
pub proof fn lemma_text_less_irreflexive(a: Seq<char>)
    ensures
        !text_less(a, a),
    decreases a.len(),
{
    if a.len() > 0 {
        lemma_text_less_irreflexive(a.drop_first());
    }
}

/// Text order is transitive.
pub proof fn lemma_text_less_transitive(a: Seq<char>, b: Seq<char>, c: Seq<char>)
    requires
        text_less(a, b),
        text_less(b, c),
    ensures
        text_less(a, c),
    decreases a.len(),
{
    if a.len() > 0 && a[0] == b[0] && b[0] == c[0] {
        lemma_text_less_transitive(a.drop_first(), b.drop_first(), c.drop_first());
    }
}

/// Of two texts that differ, one sorts before the other.
pub proof fn lemma_text_less_total(a: Seq<char>, b: Seq<char>)
    ensures
        text_less(a, b) || text_less(b, a) || a == b,
    decreases a.len(),
{
    if a.len() > 0 && b.len() > 0 && a[0] == b[0] {
        lemma_text_less_total(a.drop_first(), b.drop_first());
        if a.drop_first() == b.drop_first() {
            assert(a =~= seq![a[0]] + a.drop_first());
            assert(b =~= seq![b[0]] + b.drop_first());
            assert(a == b);
        }
    } else if a.len() == 0 && b.len() == 0 {
        assert(a =~= b);
    }
}

// ---------------------------------------------------------------------------
// White space
// ---------------------------------------------------------------------------

/// The characters with Unicode's `White_Space` property.
pub open spec fn is_space(c: char) -> bool {
    let u = c as u32;
    ||| 0x09 <= u <= 0x0d
    ||| u == 0x20
    ||| u == 0x85
    ||| u == 0xa0
    ||| u == 0x1680
    ||| 0x2000 <= u <= 0x200a
    ||| u == 0x2028
    ||| u == 0x2029
    ||| u == 0x202f
    ||| u == 0x205f
    ||| u == 0x3000
}

fn space(c: char) -> (r: bool)
    ensures
        r == is_space(c),
{
    let u: u32 = c as u32;
    (0x09 <= u && u <= 0x0d) || u == 0x20 || u == 0x85 || u == 0xa0 || u == 0x1680 || (0x2000 <= u
        && u <= 0x200a) || u == 0x2028 || u == 0x2029 || u == 0x202f || u == 0x205f || u == 0x3000
}

/// `s` without its leading white space.
pub open spec fn trim_start(s: Seq<char>) -> Seq<char>
    decreases s.len(),
{
    if s.len() > 0 && is_space(s[0]) {
        trim_start(s.drop_first())
    } else {
        s
    }
}

/// `s` without its trailing white space.
pub open spec fn trim_end(s: Seq<char>) -> Seq<char>
    decreases s.len(),
{
    if s.len() > 0 && is_space(s.last()) {
        trim_end(s.drop_last())
    } else {
        s
    }
}

/// `s` without the white space around it.
pub open spec fn trimmed(s: Seq<char>) -> Seq<char> {
    trim_end(trim_start(s))
}

/// `s` without its leading white space.
pub fn trim_left(s: &[char]) -> (r: &[char])
    ensures
        r@ == trim_start(s@),
        r@.len() <= s@.len(),
        r@.len() > 0 ==> !is_space(r@[0]),
{
    let mut lo: usize = 0;
    assert(s@.skip(0) =~= s@);
    while lo < s.len() && space(s[lo])
        invariant
            lo <= s@.len(),
            trim_start(s@) == trim_start(s@.skip(lo as int)),
        decreases s@.len() - lo,
    {
        assert(s@.skip(lo as int).drop_first() =~= s@.skip(lo as int + 1));
        lo = lo + 1;
    }
    slice_subrange(s, lo, s.len())
}

/// `s` without the white space around it.
pub fn trim(s: &[char]) -> (r: &[char])
    ensures
        r@ == trimmed(s@),
{
    let t = trim_left(s);
    let mut hi: usize = t.len();
    assert(t@.take(hi as int) =~= t@);
    while hi > 0 && space(t[hi - 1])
        invariant
            hi <= t@.len(),
            trim_end(t@) == trim_end(t@.take(hi as int)),
        decreases hi,
    {
        assert(t@.take(hi as int).drop_last() =~= t@.take(hi as int - 1));
        hi = hi - 1;
    }
    slice_subrange(t, 0, hi)
}

/// Text whose two ends are no white space is its own trimmed form.
pub proof fn lemma_trimmed_id(s: Seq<char>)
    requires
        s.len() > 0 ==> !is_space(s[0]) && !is_space(s.last()),
    ensures
        trimmed(s) == s,
{
}

// ---------------------------------------------------------------------------
// Splitting
// ---------------------------------------------------------------------------

/// How many characters of `s` stand before its first `c`; all of them where
/// it has none.
pub open spec fn before(s: Seq<char>, c: char) -> int
    decreases s.len(),
{
    if s.len() == 0 || s[0] == c {
        0
    } else {
        1 + before(s.drop_first(), c)
    }
}

/// What `before` says: the position is the first `c`, or the end.
pub proof fn lemma_before(s: Seq<char>, c: char)
    ensures
        0 <= before(s, c) <= s.len(),
        before(s, c) < s.len() ==> s[before(s, c)] == c,
        forall|j: int| 0 <= j < before(s, c) ==> s[j] != c,
    decreases s.len(),
{
    if s.len() > 0 && s[0] != c {
        let t = s.drop_first();
        lemma_before(t, c);
        assert forall|j: int| 0 <= j < before(s, c) implies s[j] != c by {
            if j > 0 {
                assert(t[j - 1] == s[j]);
            }
        }
    }
}

/// The one position with no `c` before it and `c` at it is `before`.
pub proof fn lemma_before_is(s: Seq<char>, c: char, i: int)
    requires
        0 <= i <= s.len(),
        i < s.len() ==> s[i] == c,
        forall|j: int| 0 <= j < i ==> s[j] != c,
    ensures
        before(s, c) == i,
{
    lemma_before(s, c);
    let k = before(s, c);
    if k < i {
        assert(s[k] != c);
    }
    if i < k {
        assert(s[i] != c);
    }
}

/// Position of the first `c` in `s`.
pub fn find(s: &[char], c: char) -> (r: Option<usize>)
    ensures
        match r {
            Some(i) => i < s@.len() && i == before(s@, c),
            None => before(s@, c) == s@.len(),
        },
{
    let n: usize = s.len();
    for i in 0..n
        invariant
            n == s@.len(),
            forall|j: int| 0 <= j < i ==> s@[j] != c,
    {
        if s[i] == c {
            proof {
                lemma_before_is(s@, c, i as int);
            }
            return Some(i);
        }
    }
    proof {
        lemma_before_is(s@, c, n as int);
    }
    None
}

/// `s` cut at its first `c`: what stands before it and what stands after.
pub open spec fn cut(s: Seq<char>, c: char) -> Option<(Seq<char>, Seq<char>)> {
    let i = before(s, c);
    if i < s.len() {
        Some((s.take(i), s.skip(i + 1)))
    } else {
        None
    }
}

/// `s` cut at its first `c`.
pub fn split_once(s: &[char], c: char) -> (r: Option<(&[char], &[char])>)
    ensures
        match r {
            Some(p) => cut(s@, c) == Some((p.0@, p.1@)),
            None => cut(s@, c) is None,
        },
{
    let n: usize = s.len();
    match find(s, c) {
        Some(i) => Some((slice_subrange(s, 0, i), slice_subrange(s, i + 1, n))),
        None => None,
    }
}

/// The pieces of `s` between its `c`s; `n` separators make `n + 1` pieces.
pub open spec fn split_at_each(s: Seq<char>, c: char) -> Seq<Seq<char>>
    decreases s.len(),
    via split_at_each_decreases
{
    let i = before(s, c);
    if i < s.len() {
        seq![s.take(i)] + split_at_each(s.skip(i + 1), c)
    } else {
        seq![s]
    }
}

#[via_fn]
proof fn split_at_each_decreases(s: Seq<char>, c: char) {
    lemma_before(s, c);
}

/// The text that joins `parts` with `c` between neighbours.
pub open spec fn joined(parts: Seq<Seq<char>>, c: char) -> Seq<char>
    decreases parts.len(),
{
    if parts.len() == 0 {
        seq![]
    } else if parts.len() == 1 {
        parts[0]
    } else {
        parts[0] + seq![c] + joined(parts.drop_first(), c)
    }
}

/// Splitting what was joined gives the parts back.
pub proof fn lemma_split_joined(parts: Seq<Seq<char>>, c: char)
    requires
        parts.len() > 0,
        forall|i: int| 0 <= i < parts.len() ==> before(#[trigger] parts[i], c) == parts[i].len(),
    ensures
        split_at_each(joined(parts, c), c) == parts,
    decreases parts.len(),
{
    let p = parts[0];
    assert(before(p, c) == p.len());
    if parts.len() == 1 {
        assert(split_at_each(joined(parts, c), c) =~= parts);
    } else {
        let rest = parts.drop_first();
        assert forall|i: int| 0 <= i < rest.len() implies before(#[trigger] rest[i], c)
            == rest[i].len() by {
            assert(rest[i] == parts[i + 1]);
        }
        lemma_split_joined(rest, c);
        let s = joined(parts, c);
        let i = p.len() as int;
        lemma_before(p, c);
        assert forall|j: int| 0 <= j < i implies s[j] != c by {
            assert(s[j] == p[j]);
        }
        lemma_before_is(s, c, i);
        assert(s.take(i) =~= p);
        assert(s.skip(i + 1) =~= joined(rest, c));
        assert(seq![p] + rest =~= parts);
    }
}

/// The pieces of `s` between its `c`s.
pub fn split(s: &[char], c: char) -> (r: Vec<Vec<char>>)
    ensures
        r@.map_values(|p: Vec<char>| p@) == split_at_each(s@, c),
{
    let mut out: Vec<Vec<char>> = Vec::new();
    let mut rest = s;
    let ghost want = split_at_each(s@, c);
    assert(out@.map_values(|p: Vec<char>| p@) + want =~= want);
    loop
        invariant
            want == out@.map_values(|p: Vec<char>| p@) + split_at_each(rest@, c),
        ensures
            want == out@.map_values(|p: Vec<char>| p@) + seq![rest@],
        decreases rest@.len(),
    {
        let ghost pieces = out@.map_values(|p: Vec<char>| p@);
        match split_once(rest, c) {
            Some(p) => {
                let piece = slice_to_vec(p.0);
                proof {
                    lemma_before(rest@, c);
                }
                out.push(piece);
                assert(out@.map_values(|p: Vec<char>| p@) =~= pieces.push(piece@));
                assert(want =~= out@.map_values(|p: Vec<char>| p@) + split_at_each(p.1@, c));
                rest = p.1;
            },
            None => {
                break;
            },
        }
    }
    let last = slice_to_vec(rest);
    let ghost pieces = out@.map_values(|p: Vec<char>| p@);
    out.push(last);
    assert(out@.map_values(|p: Vec<char>| p@) =~= pieces.push(last@));
    assert(want =~= out@.map_values(|p: Vec<char>| p@));
    out
}

/// Length of the leading run of `s` that holds no white space.
pub open spec fn word_len(s: Seq<char>) -> int
    decreases s.len(),
{
    if s.len() > 0 && !is_space(s[0]) {
        1 + word_len(s.drop_first())
    } else {
        0
    }
}

/// A leading word is no longer than its text.
pub proof fn lemma_word_len(s: Seq<char>)
    ensures
        0 <= word_len(s) <= s.len(),
        s.len() > 0 && !is_space(s[0]) ==> word_len(s) > 0,
    decreases s.len(),
{
    if s.len() > 0 && !is_space(s[0]) {
        lemma_word_len(s.drop_first());
    }
}

/// Dropping leading white space never makes a text longer.
pub proof fn lemma_trim_start_len(s: Seq<char>)
    ensures
        trim_start(s).len() <= s.len(),
        trim_start(s).len() > 0 ==> !is_space(trim_start(s)[0]),
    decreases s.len(),
{
    if s.len() > 0 && is_space(s[0]) {
        lemma_trim_start_len(s.drop_first());
    }
}

/// The words of `s`: its maximal runs without white space, in order.
pub open spec fn words(s: Seq<char>) -> Seq<Seq<char>>
    decreases s.len(),
    via words_decreases
{
    let t = trim_start(s);
    if t.len() == 0 {
        seq![]
    } else {
        seq![t.take(word_len(t))] + words(t.skip(word_len(t)))
    }
}

#[via_fn]
proof fn words_decreases(s: Seq<char>) {
    lemma_trim_start_len(s);
    lemma_word_len(trim_start(s));
}

/// The words of `s`.
pub fn split_whitespace(s: &[char]) -> (r: Vec<Vec<char>>)
    ensures
        r@.map_values(|p: Vec<char>| p@) == words(s@),
{
    let mut out: Vec<Vec<char>> = Vec::new();
    let mut rest = trim_left(s);
    let ghost want = words(s@);
    assert(out@.map_values(|p: Vec<char>| p@) + want =~= want);
    proof {
        lemma_trim_start_id(rest@);
        lemma_words_of_trimmed(s@);
    }
    while rest.len() > 0
        invariant
            rest@.len() > 0 ==> !is_space(rest@[0]),
            want == out@.map_values(|p: Vec<char>| p@) + words(rest@),
        decreases rest@.len(),
    {
        let mut k: usize = 0;
        assert(rest@.skip(0) =~= rest@);
        while k < rest.len() && !space(rest[k])
            invariant
                k <= rest@.len(),
                word_len(rest@) == k + word_len(rest@.skip(k as int)),
            decreases rest@.len() - k,
        {
            assert(rest@.skip(k as int).drop_first() =~= rest@.skip(k as int + 1));
            k = k + 1;
        }
        proof {
            lemma_word_len(rest@);
        }
        let word = slice_to_vec(slice_subrange(rest, 0, k));
        let tail = slice_subrange(rest, k, rest.len());
        assert(tail@ =~= rest@.skip(k as int));
        assert(word@ =~= rest@.take(k as int));
        let ghost before = out@;
        out.push(word);
        assert(out@.map_values(|p: Vec<char>| p@) =~= before.map_values(|p: Vec<char>| p@).push(
            word@,
        ));
        proof {
            lemma_trim_start_id(rest@);
            lemma_words_of_trimmed(tail@);
        }
        rest = trim_left(tail);
        assert(want =~= out@.map_values(|p: Vec<char>| p@) + words(rest@));
    }
    proof {
        lemma_trim_start_id(rest@);
        assert(words(rest@) =~= seq![]);
    }
    assert(want =~= out@.map_values(|p: Vec<char>| p@));
    out
}

proof fn lemma_trim_start_id(s: Seq<char>)
    requires
        s.len() > 0 ==> !is_space(s[0]),
    ensures
        trim_start(s) == s,
{
}

proof fn lemma_words_of_trimmed(s: Seq<char>)
    ensures
        words(s) == words(trim_start(s)),
{
    lemma_trim_start_len(s);
    lemma_trim_start_id(trim_start(s));
}

/// Whether `p` stands in `s` at position `i`.
pub open spec fn occurs_at(s: Seq<char>, p: Seq<char>, i: int) -> bool {
    0 <= i && i + p.len() <= s.len() && s.subrange(i, i + p.len()) == p
}

/// Position of the first occurrence of `p` in `s`.
pub fn find_text(s: &[char], p: &[char]) -> (r: Option<usize>)
    ensures
        match r {
            Some(i) => occurs_at(s@, p@, i as int) && forall|j: int|
                0 <= j < i ==> !#[trigger] occurs_at(s@, p@, j),
            None => forall|j: int| !#[trigger] occurs_at(s@, p@, j),
        },
{
    if p.len() > s.len() {
        return None;
    }
    let n: usize = s.len();
    let last: usize = n - p.len();
    let mut i: usize = 0;
    while i <= last
        invariant
            n == s@.len(),
            last + p@.len() == s@.len(),
            i <= last + 1,
            forall|j: int| 0 <= j < i ==> !#[trigger] occurs_at(s@, p@, j),
        decreases last + 1 - i,
    {
        if same_chars(slice_subrange(s, i, i + p.len()), p) {
            return Some(i);
        }
        if i == last {
            return None;
        }
        i = i + 1;
    }
    None
}

// ---------------------------------------------------------------------------
// Numbers
// ---------------------------------------------------------------------------

/// Whether `c` is a decimal digit.
pub open spec fn is_digit(c: char) -> bool {
    '0' <= c <= '9'
}

/// The number a run of decimal digits writes.
pub open spec fn digits_value(s: Seq<char>) -> nat
    decreases s.len(),
{
    if s.len() == 0 {
        0
    } else {
        (10 * digits_value(s.drop_last()) + (s.last() as u32 - '0' as u32)) as nat
    }
}

/// Whether `s` is one or more decimal digits.
pub open spec fn all_digits(s: Seq<char>) -> bool {
    s.len() > 0 && forall|i: int| 0 <= i < s.len() ==> is_digit(#[trigger] s[i])
}

/// The number `s` writes, if it is an unsigned decimal of at most `max`: an
/// optional `+` before one or more digits.
pub open spec fn number_of(s: Seq<char>, max: nat) -> Option<nat> {
    let d = if s.len() > 0 && s[0] == '+' {
        s.drop_first()
    } else {
        s
    };
    if all_digits(d) && digits_value(d) <= max {
        Some(digits_value(d))
    } else {
        None
    }
}

proof fn lemma_digits_value_prefix(s: Seq<char>, i: int)
    requires
        0 <= i <= s.len(),
        all_digits(s),
    ensures
        digits_value(s.take(i)) <= digits_value(s),
    decreases s.len() - i,
{
    if i < s.len() {
        lemma_digits_value_prefix(s, i + 1);
        assert(s.take(i + 1).drop_last() =~= s.take(i));
        assert(is_digit(s[i]));
        assert(s.take(i + 1).last() == s[i]);
    } else {
        assert(s.take(i) =~= s);
    }
}

/// Reads an unsigned decimal of at most `max`.
pub fn parse_number(s: &[char], max: u64) -> (r: Option<u64>)
    ensures
        match r {
            Some(n) => number_of(s@, max as nat) == Some(n as nat) && n <= max,
            None => number_of(s@, max as nat) is None,
        },
{
    let d = if s.len() > 0 && s[0] == '+' {
        let t = slice_subrange(s, 1, s.len());
        assert(t@ =~= s@.drop_first());
        t
    } else {
        s
    };
    if d.len() == 0 {
        return None;
    }
    let n: usize = d.len();
    let mut value: u64 = 0;
    for i in 0..n
        invariant
            n == d@.len(),
            n > 0,
            d@ == (if s@.len() > 0 && s@[0] == '+' {
                s@.drop_first()
            } else {
                s@
            }),
            value == digits_value(d@.take(i as int)),
            value <= max,
            forall|j: int| 0 <= j < i ==> is_digit(#[trigger] d@[j]),
    {
        let c = d[i];
        if !('0' <= c && c <= '9') {
            assert(!is_digit(d@[i as int]));
            return None;
        }
        let digit: u64 = (c as u64) - ('0' as u64);
        assert(d@.take(i as int + 1).drop_last() =~= d@.take(i as int));
        assert(digits_value(d@.take(i as int + 1)) == 10 * value + digit);
        if digit > max || value > (max - digit) / 10 {
            proof {
                if all_digits(d@) {
                    lemma_digits_value_prefix(d@, i as int + 1);
                }
            }
            return None;
        }
        value = 10 * value + digit;
    }
    assert(d@.take(n as int) =~= d@);
    Some(value)
}

/// Reads an unsigned decimal that fits a `usize`.
pub fn parse_usize(s: &[char]) -> (r: Option<usize>)
    ensures
        match r {
            Some(n) => number_of(s@, usize::MAX as nat) == Some(n as nat),
            None => number_of(s@, usize::MAX as nat) is None,
        },
{
    match parse_number(s, usize::MAX as u64) {
        Some(n) => Some(n as usize),
        None => None,
    }
}

/// The character of a digit below sixteen, upper case from ten on.
pub open spec fn digit_char(d: nat) -> char {
    if d < 10 {
        (d + '0' as u32) as char
    } else {
        (d - 10 + 'A' as u32) as char
    }
}

fn digit_of(d: u8) -> (c: char)
    requires
        d < 16,
    ensures
        c == digit_char(d as nat),
{
    if d < 10 {
        (d + 48u8) as char
    } else {
        (d - 10 + 65u8) as char
    }
}

/// The shortest decimal form of `n`.
pub open spec fn decimal(n: nat) -> Seq<char>
    decreases n,
{
    if n < 10 {
        seq![digit_char(n)]
    } else {
        decimal(n / 10).push(digit_char(n % 10))
    }
}

/// Decimal forms are made of digits and read back as what they write.
pub proof fn lemma_decimal(n: nat)
    ensures
        all_digits(decimal(n)),
        digits_value(decimal(n)) == n,
    decreases n,
{
    if n < 10 {
        assert(decimal(n).drop_last() =~= seq![]);
        assert(digits_value(decimal(n).drop_last()) == 0);
        assert(digits_value(decimal(n)) == n);
    } else {
        lemma_decimal(n / 10);
        let d = decimal(n / 10);
        let s = decimal(n);
        assert(s.drop_last() =~= d);
        assert forall|i: int| 0 <= i < s.len() implies is_digit(#[trigger] s[i]) by {
            if i < d.len() {
                assert(s[i] == d[i]);
            }
        }
        assert(s.last() == digit_char(n % 10));
    }
}

/// A decimal form read back as a number.
pub proof fn lemma_number_of_decimal(n: nat, max: nat)
    requires
        n <= max,
    ensures
        number_of(decimal(n), max) == Some(n),
{
    lemma_decimal(n);
    assert(is_digit(decimal(n)[0]));
}

/// The decimal form of `n`.
pub fn decimal_of(n: u64) -> (r: Vec<char>)
    ensures
        r@ == decimal(n as nat),
    decreases n,
{
    if n < 10 {
        let mut v: Vec<char> = Vec::new();
        v.push(digit_of(n as u8));
        assert(v@ =~= decimal(n as nat));
        v
    } else {
        let mut v = decimal_of(n / 10);
        v.push(digit_of((n % 10) as u8));
        v
    }
}

/// The shortest upper-case hexadecimal form of `n`.
pub open spec fn hexadecimal(n: nat) -> Seq<char>
    decreases n,
{
    if n < 16 {
        seq![digit_char(n)]
    } else {
        hexadecimal(n / 16).push(digit_char(n % 16))
    }
}

/// The upper-case hexadecimal form of `n`.
pub fn hexadecimal_of(n: u64) -> (r: Vec<char>)
    ensures
        r@ == hexadecimal(n as nat),
    decreases n,
{
    if n < 16 {
        let mut v: Vec<char> = Vec::new();
        v.push(digit_of(n as u8));
        assert(v@ =~= hexadecimal(n as nat));
        v
    } else {
        let mut v = hexadecimal_of(n / 16);
        v.push(digit_of((n % 16) as u8));
        v
    }
}

/// The lower-case form of a hexadecimal digit.
pub open spec fn lower_digit(d: nat) -> char {
    if d < 10 {
        (d + '0' as u32) as char
    } else {
        (d - 10 + 'a' as u32) as char
    }
}

/// The shortest lower-case hexadecimal form of `n`.
pub open spec fn lower_hex(n: nat) -> Seq<char>
    decreases n,
{
    if n < 16 {
        seq![lower_digit(n)]
    } else {
        lower_hex(n / 16).push(lower_digit(n % 16))
    }
}

/// The lower-case hexadecimal form of `n`.
pub fn lower_hex_of(n: u64) -> (r: Vec<char>)
    ensures
        r@ == lower_hex(n as nat),
    decreases n,
{
    let d: u8 = (n % 16) as u8;
    let c: char = if d < 10 {
        (d + 48u8) as char
    } else {
        (d - 10 + 97u8) as char
    };
    let mut v: Vec<char> = if n < 16 {
        Vec::new()
    } else {
        lower_hex_of(n / 16)
    };
    let ghost before = v@;
    v.push(c);
    assert(v@ =~= lower_hex(n as nat));
    v
}

/// `s` with zeroes before it, to a width of `k`.
pub open spec fn zero_padded(s: Seq<char>, k: nat) -> Seq<char> {
    if s.len() >= k {
        s
    } else {
        Seq::new((k - s.len()) as nat, |i: int| '0') + s
    }
}

/// `s` with zeroes before it, to a width of `k`.
pub fn pad_zeroes(s: &[char], k: usize) -> (r: Vec<char>)
    ensures
        r@ == zero_padded(s@, k as nat),
{
    let mut r: Vec<char> = Vec::new();
    let n: usize = s.len();
    if n < k {
        for i in 0..k - n
            invariant
                r@ == Seq::new(i as nat, |j: int| '0'),
        {
            r.push('0');
            assert(r@ =~= Seq::new((i + 1) as nat, |j: int| '0'));
        }
    }
    let ghost head = r@;
    for i in 0..n
        invariant
            n == s@.len(),
            r@ == head + s@.take(i as int),
    {
        r.push(s[i]);
        assert(r@ =~= head + s@.take(i as int + 1));
    }
    assert(s@.take(n as int) =~= s@);
    assert(r@ =~= zero_padded(s@, k as nat));
    r
}

/// A number between two texts.
pub fn numbered(pre: &str, n: u64, post: &str) -> (r: String)
    ensures
        r@ == pre@ + decimal(n as nat) + post@,
{
    let mut r: String = String::new();
    assert(r@ =~= seq![]);
    push_chars(&mut r, chars_of(pre).as_slice());
    push_chars(&mut r, decimal_of(n).as_slice());
    push_chars(&mut r, chars_of(post).as_slice());
    assert(r@ =~= pre@ + decimal(n as nat) + post@);
    r
}

/// `a` and `b`, one after the other.
pub fn concat(a: &str, b: &str) -> (r: String)
    ensures
        r@ == a@ + b@,
{
    let mut r: String = String::new();
    assert(r@ =~= seq![]);
    push_chars(&mut r, chars_of(a).as_slice());
    push_chars(&mut r, chars_of(b).as_slice());
    assert(r@ =~= a@ + b@);
    r
}

/// The texts of `v`.
pub open spec fn texts(v: Seq<String>) -> Seq<Seq<char>> {
    Seq::new(v.len(), |i: int| v[i]@)
}

/// Whether two lists hold the same texts in the same order.
pub fn same_texts(a: &Vec<String>, b: &Vec<String>) -> (r: bool)
    ensures
        r == (texts(a@) == texts(b@)),
{
    if a.len() != b.len() {
        assert(texts(a@).len() != texts(b@).len());
        return false;
    }
    let n: usize = a.len();
    for i in 0..n
        invariant
            n == a@.len() == b@.len(),
            forall|j: int| 0 <= j < i ==> (#[trigger] a@[j])@ == b@[j]@,
    {
        if !same_text(a[i].as_str(), b[i].as_str()) {
            assert(texts(a@)[i as int] != texts(b@)[i as int]);
            return false;
        }
    }
    assert(texts(a@) =~= texts(b@));
    true
}

/// Whether `t` is one of `v`.
pub fn has_text(v: &Vec<String>, t: &str) -> (r: bool)
    ensures
        r == texts(v@).contains(t@),
{
    let n: usize = v.len();
    for i in 0..n
        invariant
            n == v@.len(),
            forall|j: int| 0 <= j < i ==> (#[trigger] v@[j])@ != t@,
    {
        if same_text(v[i].as_str(), t) {
            assert(texts(v@)[i as int] == t@);
            return true;
        }
    }
    proof {
        if texts(v@).contains(t@) {
            let j = choose|j: int| 0 <= j < texts(v@).len() && texts(v@)[j] == t@;
            assert(v@[j]@ == t@);
        }
    }
    false
}

/// A copy of the list.
pub fn owned_texts(v: &Vec<String>) -> (r: Vec<String>)
    ensures
        texts(r@) == texts(v@),
{
    let mut r: Vec<String> = Vec::new();
    let n: usize = v.len();
    for i in 0..n
        invariant
            n == v@.len(),
            r@.len() == i,
            forall|j: int| 0 <= j < i ==> (#[trigger] r@[j])@ == v@[j]@,
    {
        r.push(owned(v[i].as_str()));
    }
    assert(texts(r@) =~= texts(v@));
    r
}

/// Put `t` behind `s`.
pub fn say(s: &mut String, t: &str)
    ensures
        final(s)@ == old(s)@ + t@,
{
    push_chars(s, chars_of(t).as_slice());
}

/// Put the decimal form of `n` behind `s`.
pub fn say_number(s: &mut String, n: u64)
    ensures
        final(s)@ == old(s)@ + decimal(n as nat),
{
    push_chars(s, decimal_of(n).as_slice());
}

/// Put the lower-case hexadecimal form of `n` behind `s`.
pub fn say_hex(s: &mut String, n: u64)
    ensures
        final(s)@ == old(s)@ + lower_hex(n as nat),
{
    push_chars(s, lower_hex_of(n).as_slice());
}

/// The position of the first occurrence of `p` in `s` from `i` on.
pub open spec fn first_from(s: Seq<char>, p: Seq<char>, i: int) -> Option<int>
    decreases s.len() + 1 - i,
{
    if i < 0 || i + p.len() > s.len() {
        None
    } else if occurs_at(s, p, i) {
        Some(i)
    } else {
        first_from(s, p, i + 1)
    }
}

/// The first occurrence is the one before which there is none.
pub proof fn lemma_first_from(s: Seq<char>, p: Seq<char>, i: int, at: Option<int>)
    requires
        0 <= i,
        match at {
            Some(k) => i <= k && occurs_at(s, p, k) && forall|j: int|
                i <= j < k ==> !#[trigger] occurs_at(s, p, j),
            None => forall|j: int| i <= j ==> !#[trigger] occurs_at(s, p, j),
        },
    ensures
        first_from(s, p, i) == at,
    decreases s.len() + 1 - i,
{
    if i + p.len() <= s.len() {
        if !occurs_at(s, p, i) {
            lemma_first_from(s, p, i + 1, at);
        }
    }
}

// ---------------------------------------------------------------------------
// Read back
// ---------------------------------------------------------------------------

/// Whether `c` does not stand in `s`.
pub open spec fn free_of(s: Seq<char>, c: char) -> bool {
    forall|i: int| 0 <= i < s.len() ==> #[trigger] s[i] != c
}

/// Two texts with a separator between them are cut into these two, if the first
/// does not hold it; a text without it is not cut.
pub proof fn lemma_cut(a: Seq<char>, c: char, b: Seq<char>)
    requires
        free_of(a, c),
    ensures
        cut(a + seq![c] + b, c) == Some((a, b)),
        cut(a, c) is None,
{
    let s = a + seq![c] + b;
    lemma_before_is(s, c, a.len() as int);
    lemma_before_is(a, c, a.len() as int);
    assert(s.take(a.len() as int) =~= a);
    assert(s.skip(a.len() as int + 1) =~= b);
}

/// Whether `s` is white space throughout.
pub open spec fn blank(s: Seq<char>) -> bool {
    forall|i: int| 0 <= i < s.len() ==> is_space(#[trigger] s[i])
}

/// Trimming takes white space and nothing else from the two ends, and all of it.
pub proof fn lemma_trimmed(lead: Seq<char>, s: Seq<char>, tail: Seq<char>)
    requires
        blank(lead),
        blank(tail),
        s.len() > 0 ==> !is_space(s[0]) && !is_space(s.last()),
    ensures
        trimmed(lead + s + tail) == s,
{
    lemma_trim_lead(lead, s + tail);
    assert(lead + s + tail =~= lead + (s + tail));
    if s.len() > 0 {
        assert(trim_start(s + tail) == s + tail);
        lemma_trim_tail(s, tail);
    } else {
        assert(s + tail =~= tail + s);
        lemma_trim_lead(tail, s);
        assert(trimmed(lead + s + tail) =~= s);
    }
}

proof fn lemma_trim_lead(lead: Seq<char>, s: Seq<char>)
    requires
        blank(lead),
    ensures
        trim_start(lead + s) == trim_start(s),
    decreases lead.len(),
{
    if lead.len() > 0 {
        let rest = lead.drop_first();
        assert forall|i: int| 0 <= i < rest.len() implies is_space(#[trigger] rest[i]) by {
            assert(rest[i] == lead[i + 1]);
        }
        assert((lead + s)[0] == lead[0]);
        assert((lead + s).drop_first() =~= rest + s);
        lemma_trim_lead(rest, s);
    } else {
        assert(lead + s =~= s);
    }
}

proof fn lemma_trim_tail(s: Seq<char>, tail: Seq<char>)
    requires
        blank(tail),
        s.len() > 0,
        !is_space(s.last()),
    ensures
        trim_end(s + tail) == s,
    decreases tail.len(),
{
    if tail.len() > 0 {
        assert((s + tail).last() == tail.last());
        assert((s + tail).drop_last() =~= s + tail.drop_last());
        lemma_trim_tail(s, tail.drop_last());
    } else {
        assert(s + tail =~= s);
    }
}

/// Whether `w` is a word: some characters, none of them white space.
pub open spec fn is_word(w: Seq<char>) -> bool {
    w.len() > 0 && forall|i: int| 0 <= i < w.len() ==> !is_space(#[trigger] w[i])
}

/// Words come back from a text in which white space stands between them: the
/// first of them, and then those of the rest.
pub proof fn lemma_words(lead: Seq<char>, w: Seq<char>, rest: Seq<char>)
    requires
        blank(lead),
        is_word(w),
        rest.len() > 0 ==> is_space(rest[0]),
    ensures
        words(lead + w + rest) == seq![w] + words(rest),
        words(lead) == Seq::<Seq<char>>::empty(),
{
    let t = w + rest;
    assert(lead + w + rest =~= lead + t);
    lemma_trim_lead(lead, t);
    assert(!is_space(w[0]));
    assert(trim_start(t) == t);
    lemma_word_len_is(w, rest);
    assert(t.take(w.len() as int) =~= w);
    assert(t.skip(w.len() as int) =~= rest);
    lemma_trim_lead(lead, seq![]);
    assert(lead + seq![] =~= lead);
}

proof fn lemma_word_len_is(w: Seq<char>, rest: Seq<char>)
    requires
        forall|i: int| 0 <= i < w.len() ==> !is_space(#[trigger] w[i]),
        rest.len() > 0 ==> is_space(rest[0]),
    ensures
        word_len(w + rest) == w.len(),
    decreases w.len(),
{
    if w.len() > 0 {
        let v = w.drop_first();
        assert forall|i: int| 0 <= i < v.len() implies !is_space(#[trigger] v[i]) by {
            assert(v[i] == w[i + 1]);
        }
        assert((w + rest)[0] == w[0]);
        assert((w + rest).drop_first() =~= v + rest);
        lemma_word_len_is(v, rest);
    } else {
        assert(w + rest =~= rest);
    }
}

/// The value of a hexadecimal digit, of either case.
pub open spec fn hex_digit_value(c: char) -> int {
    if '0' <= c <= '9' {
        c as int - '0' as int
    } else if 'A' <= c <= 'F' {
        10 + (c as int - 'A' as int)
    } else if 'a' <= c <= 'f' {
        10 + (c as int - 'a' as int)
    } else {
        -1
    }
}

/// The number hexadecimal digits write.
pub open spec fn hex_value_of(s: Seq<char>) -> int
    decreases s.len(),
{
    if s.len() == 0 {
        0
    } else {
        16 * hex_value_of(s.drop_last()) + hex_digit_value(s.last())
    }
}

/// A hexadecimal form reads back as what it writes, however many zeroes stand
/// before it, and has no zero of its own in front.
pub proof fn lemma_hexadecimal(n: nat, k: nat)
    ensures
        hex_value_of(hexadecimal(n)) == n,
        hex_value_of(zero_padded(hexadecimal(n), k)) == n,
        zero_padded(hexadecimal(n), k).len() >= k,
        zero_padded(hexadecimal(n), k).len() == k || zero_padded(hexadecimal(n), k) == hexadecimal(n),
        hexadecimal(n).len() > 1 ==> hexadecimal(n)[0] != '0',
        forall|i: int|
            0 <= i < hexadecimal(n).len() ==> '0' <= #[trigger] hexadecimal(n)[i] <= '9' || 'A'
                <= hexadecimal(n)[i] <= 'F',
{
    lemma_hexadecimal_digits(n);
    if hexadecimal(n).len() < k {
        lemma_hex_padded(hexadecimal(n), (k - hexadecimal(n).len()) as nat);
        let z = Seq::new((k - hexadecimal(n).len()) as nat, |i: int| '0');
        assert(zero_padded(hexadecimal(n), k) =~= z + hexadecimal(n));
    }
}

proof fn lemma_hexadecimal_digits(n: nat)
    ensures
        hex_value_of(hexadecimal(n)) == n,
        hexadecimal(n).len() > 0,
        n > 0 ==> hexadecimal(n)[0] != '0',
        hexadecimal(n).len() > 1 ==> n > 0,
        forall|i: int|
            0 <= i < hexadecimal(n).len() ==> '0' <= #[trigger] hexadecimal(n)[i] <= '9' || 'A'
                <= hexadecimal(n)[i] <= 'F',
    decreases n,
{
    let s = hexadecimal(n);
    if n < 16 {
        assert(s.drop_last() =~= seq![]);
        assert(hex_value_of(s.drop_last()) == 0);
    } else {
        lemma_hexadecimal_digits(n / 16);
        let d = hexadecimal(n / 16);
        assert(s.drop_last() =~= d);
        assert(s.last() == digit_char(n % 16));
        assert forall|i: int| 0 <= i < s.len() implies '0' <= #[trigger] s[i] <= '9' || 'A' <= s[i]
            <= 'F' by {
            if i < d.len() {
                assert(s[i] == d[i]);
            }
        }
        assert(s[0] == d[0]);
    }
}

proof fn lemma_hex_padded(s: Seq<char>, m: nat)
    requires
        s.len() > 0,
    ensures
        hex_value_of(Seq::new(m, |i: int| '0') + s) == hex_value_of(s),
    decreases s.len(),
{
    let z = Seq::new(m, |i: int| '0');
    assert((z + s).drop_last() =~= z + s.drop_last());
    if s.len() > 1 {
        lemma_hex_padded(s.drop_last(), m);
    } else {
        assert(z + s.drop_last() =~= z);
        lemma_hex_zeroes(m);
        assert(s.drop_last() =~= seq![]);
        assert(hex_value_of(s.drop_last()) == 0);
    }
}

proof fn lemma_hex_zeroes(m: nat)
    ensures
        hex_value_of(Seq::new(m, |i: int| '0')) == 0,
    decreases m,
{
    let z = Seq::new(m, |i: int| '0');
    if m > 0 {
        assert(z.drop_last() =~= Seq::new((m - 1) as nat, |i: int| '0'));
        lemma_hex_zeroes((m - 1) as nat);
    }
}

/// The lower-case form reads back as what it writes.
pub proof fn lemma_lower_hex(n: nat)
    ensures
        hex_value_of(lower_hex(n)) == n,
        forall|i: int|
            0 <= i < lower_hex(n).len() ==> '0' <= #[trigger] lower_hex(n)[i] <= '9' || 'a'
                <= lower_hex(n)[i] <= 'f',
    decreases n,
{
    let s = lower_hex(n);
    if n < 16 {
        assert(s.drop_last() =~= seq![]);
        assert(hex_value_of(s.drop_last()) == 0);
    } else {
        lemma_lower_hex(n / 16);
        let d = lower_hex(n / 16);
        assert(s.drop_last() =~= d);
        assert(s.last() == lower_digit(n % 16));
        assert forall|i: int| 0 <= i < s.len() implies '0' <= #[trigger] s[i] <= '9' || 'a' <= s[i]
            <= 'f' by {
            if i < d.len() {
                assert(s[i] == d[i]);
            }
        }
    }
}

/// What is read as a number: digits, with or without a `+` before them, that come
/// to no more than is allowed. Nothing else is: no digits at all, another
/// character, or too large a number.
pub proof fn lemma_number_of(n: nat, max: nat, s: Seq<char>, i: int)
    ensures
        n <= max ==> number_of(decimal(n), max) == Some(n) && number_of(
            seq!['+'] + decimal(n),
            max,
        ) == Some(n),
        n > max ==> number_of(decimal(n), max) is None,
        number_of(seq![], max) is None,
        number_of(seq!['+'], max) is None,
        0 < i < s.len() && !('0' <= s[i] <= '9') ==> number_of(s, max) is None,
        s.len() > 0 && s[0] != '+' && !('0' <= s[0] <= '9') ==> number_of(s, max) is None,
{
    lemma_decimal(n);
    let d = decimal(n);
    assert(is_digit(d[0]));
    assert((seq!['+'] + d).drop_first() =~= d);
    assert(seq!['+'].drop_first() =~= seq![]);
    if 0 < i < s.len() && !('0' <= s[i] <= '9') {
        assert(!is_digit(s[i]));
        assert(s.drop_first()[i - 1] == s[i]);
    }
    if s.len() > 0 && s[0] != '+' && !('0' <= s[0] <= '9') {
        assert(!is_digit(s[0]));
    }
}

} // verus!
