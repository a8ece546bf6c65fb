//! Numbers as bytes, least or most significant byte first.

use vstd::prelude::*;

verus! {

/// 256 to the power `k`.
pub open spec fn pow256(k: nat) -> nat
    decreases k,
{
    if k == 0 {
        1
    } else {
        256 * pow256((k - 1) as nat)
    }
}

/// The low `k` bytes of `n`, least significant first.
pub open spec fn le(n: nat, k: nat) -> Seq<u8>
    decreases k,
{
    if k == 0 {
        seq![]
    } else {
        seq![(n % 256) as u8] + le(n / 256, (k - 1) as nat)
    }
}

/// The number whose bytes, least significant first, are `s`.
pub open spec fn le_value(s: Seq<u8>) -> nat
    decreases s.len(),
{
    if s.len() == 0 {
        0
    } else {
        s[0] as nat + 256 * le_value(s.drop_first())
    }
}

/// The low `k` bytes of `n`, most significant first.
pub open spec fn be(n: nat, k: nat) -> Seq<u8> {
    le(n, k).reverse()
}

/// The number whose bytes, most significant first, are `s`.
pub open spec fn be_value(s: Seq<u8>) -> nat {
    le_value(s.reverse())
}

/// `s` with `b` written over it from `at` on.
pub open spec fn overwritten<T>(s: Seq<T>, at: int, b: Seq<T>) -> Seq<T> {
    Seq::new(
        s.len(),
        |i: int|
            if at <= i < at + b.len() {
                b[i - at]
            } else {
                s[i]
            },
    )
}

/// `n` zero bytes.
pub open spec fn zeroes(n: nat) -> Seq<u8> {
    Seq::new(n, |i: int| 0u8)
}

/// A number that fits its bytes comes back from them, and bytes come back from
/// their number.
pub proof fn lemma_le(n: nat, k: nat)
    ensures
        le(n, k).len() == k,
        n < pow256(k) ==> le_value(le(n, k)) == n,
    decreases k,
{
    if k > 0 {
        lemma_le(n / 256, (k - 1) as nat);
        assert(le(n, k).drop_first() =~= le(n / 256, (k - 1) as nat));
        assert(n == n % 256 + 256 * (n / 256));
    }
}

/// Bytes come back from their number, which is less than 256 to their count.
pub proof fn lemma_le_value(s: Seq<u8>)
    ensures
        le(le_value(s), s.len()) == s,
        le_value(s) < pow256(s.len()),
    decreases s.len(),
{
    if s.len() > 0 {
        let t = s.drop_first();
        lemma_le_value(t);
        let v = le_value(t);
        assert(le_value(s) % 256 == s[0]);
        assert(le_value(s) / 256 == v);
        assert(le(le_value(s), s.len()) =~= seq![s[0]] + t);
        assert(seq![s[0]] + t =~= s);
    } else {
        assert(le(0, 0) =~= s);
    }
}

/// The same, most significant byte first.
pub proof fn lemma_be(n: nat, k: nat)
    ensures
        be(n, k).len() == k,
        n < pow256(k) ==> be_value(be(n, k)) == n,
{
    lemma_le(n, k);
    assert(le(n, k).reverse().reverse() =~= le(n, k));
}

/// The powers that bound the word sizes.
pub proof fn lemma_pow256()
    ensures
        pow256(1) == 0x100,
        pow256(2) == 0x1_0000,
        pow256(3) == 0x100_0000,
        pow256(4) == 0x1_0000_0000,
        pow256(6) == 0x1_0000_0000_0000,
        pow256(8) == 0x1_0000_0000_0000_0000,
        pow256(16) == 0x1_0000_0000_0000_0000_0000_0000_0000_0000,
{
    reveal_with_fuel(pow256, 17);
}

/// A larger count of bytes holds larger numbers.
pub proof fn lemma_pow256_grows(a: nat, b: nat)
    requires
        a <= b,
    ensures
        0 < pow256(a) <= pow256(b),
    decreases b,
{
    if b > 0 {
        if a == b {
            lemma_pow256_grows((a - 1) as nat, (b - 1) as nat);
        } else {
            lemma_pow256_grows(a, (b - 1) as nat);
        }
    }
}

/// The number in the `k` bytes of `b` from `at` on, least significant first.
pub fn read_le(b: &[u8], at: usize, k: usize) -> (v: u128)
    requires
        at + k <= b@.len(),
        k <= 16,
    ensures
        v == le_value(b@.subrange(at as int, at + k)),
        v < pow256(k as nat),
{
    let mut v: u128 = 0;
    let mut i: usize = k;
    let end: usize = b.len();
    assert(b@.subrange(at + k, at + k) =~= seq![]);
    while i > 0
        invariant
            i <= k <= 16,
            at + k <= end == b@.len(),
            v == le_value(b@.subrange(at + i, at + k)),
        decreases i,
    {
        i = i - 1;
        proof {
            let s = b@.subrange(at + i, at + k);
            assert(s.drop_first() =~= b@.subrange(at + i + 1, at + k));
            lemma_le_value(s);
            lemma_pow256_grows(s.len(), 16);
            lemma_pow256();
        }
        v = v * 256 + b[at + i] as u128;
    }
    proof {
        lemma_le_value(b@.subrange(at as int, at + k));
    }
    v
}

/// Append the low `k` bytes of `v`, least significant first.
pub fn push_le(out: &mut Vec<u8>, v: u128, k: usize)
    ensures
        final(out)@ == old(out)@ + le(v as nat, k as nat),
{
    let mut rest: u128 = v;
    let mut i: usize = k;
    while i > 0
        invariant
            i <= k,
            out@ + le(rest as nat, i as nat) == old(out)@ + le(v as nat, k as nat),
        decreases i,
    {
        let ghost before = out@;
        let ghost n = rest as nat;
        out.push((rest % 256) as u8);
        rest = rest / 256;
        i = i - 1;
        assert(out@ + le(rest as nat, i as nat) =~= before + le(n, (i + 1) as nat));
    }
    assert(out@ + le(rest as nat, 0) =~= out@);
}

/// Append the low `k` bytes of `v`, most significant first.
pub fn push_be(out: &mut Vec<u8>, v: u128, k: usize)
    ensures
        final(out)@ == old(out)@ + be(v as nat, k as nat),
{
    let mut low: Vec<u8> = Vec::new();
    push_le(&mut low, v, k);
    proof {
        lemma_le(v as nat, k as nat);
        assert(low@ =~= le(v as nat, k as nat));
    }
    let mut i: usize = k;
    let ghost all = be(v as nat, k as nat);
    while i > 0
        invariant
            i <= k,
            low@.len() == k,
            all == low@.reverse(),
            out@ == old(out)@ + all.take(k - i),
        decreases i,
    {
        i = i - 1;
        out.push(low[i]);
        assert(out@ =~= old(out)@ + all.take(k - i));
    }
    assert(all.take(k as int) =~= all);
}

/// Write the bytes of `src` over `buf` from `at` on.
pub fn put_bytes(buf: &mut Vec<u8>, at: usize, src: &[u8])
    requires
        at + src@.len() <= old(buf)@.len(),
    ensures
        final(buf)@ == overwritten(old(buf)@, at as int, src@),
{
    let n: usize = src.len();
    let end: usize = buf.len();
    let ghost before = buf@;
    assert(overwritten(before, at as int, src@.take(0)) =~= before);
    for i in 0..n
        invariant
            n == src@.len(),
            at + n <= end == buf@.len() == before.len(),
            buf@ == overwritten(before, at as int, src@.take(i as int)),
    {
        buf[at + i] = src[i];
        assert(buf@ =~= overwritten(before, at as int, src@.take(i as int + 1)));
    }
    assert(src@.take(n as int) =~= src@);
}

/// `n` zero bytes.
pub fn zero_bytes(n: usize) -> (v: Vec<u8>)
    ensures
        v@ == zeroes(n as nat),
{
    let mut v: Vec<u8> = Vec::new();
    v.resize(n, 0u8);
    assert(v@ =~= zeroes(n as nat));
    v
}

/// Whether two byte strings are the same.
pub fn same_bytes(a: &[u8], b: &[u8]) -> (r: bool)
    ensures
        r == (a@ == b@),
{
    if a.len() != b.len() {
        return false;
    }
    let n: usize = a.len();
    for i in 0..n
        invariant
            n == a@.len() == b@.len(),
            forall|j: int| 0 <= j < i ==> a@[j] == b@[j],
    {
        if a[i] != b[i] {
            return false;
        }
    }
    assert(a@ =~= b@);
    true
}

/// Copy `n` bytes of `src` from `from` on over `dst` from `at` on.
pub fn copy_bytes(dst: &mut [u8], at: usize, src: &[u8], from: usize, n: usize)
    requires
        at + n <= old(dst)@.len(),
        from + n <= src@.len(),
    ensures
        final(dst)@ == overwritten(old(dst)@, at as int, src@.subrange(from as int, from + n)),
{
    let ghost before = dst@;
    let ghost s = src@.subrange(from as int, from + n);
    let end: usize = dst.len();
    let last: usize = src.len();
    assert(overwritten(before, at as int, s.take(0)) =~= before);
    for i in 0..n
        invariant
            from + n <= last == src@.len(),
            at + n <= end == dst@.len() == before.len(),
            s == src@.subrange(from as int, from + n),
            dst@ == overwritten(before, at as int, s.take(i as int)),
    {
        dst[at + i] = src[from + i];
        assert(dst@ =~= overwritten(before, at as int, s.take(i as int + 1)));
    }
    assert(s.take(n as int) =~= s);
}

/// Write `n` zero bytes over `dst` from `at` on.
pub fn clear_bytes(dst: &mut [u8], at: usize, n: usize)
    requires
        at + n <= old(dst)@.len(),
    ensures
        final(dst)@ == overwritten(old(dst)@, at as int, zeroes(n as nat)),
{
    let ghost before = dst@;
    let end: usize = dst.len();
    assert(overwritten(before, at as int, zeroes(0)) =~= before);
    for i in 0..n
        invariant
            at + n <= end == dst@.len() == before.len(),
            dst@ == overwritten(before, at as int, zeroes(i as nat)),
    {
        dst[at + i] = 0;
        assert(dst@ =~= overwritten(before, at as int, zeroes((i + 1) as nat)));
    }
}

/// What was written over a string is read back from there, and the rest of
/// the string is what it was.
pub proof fn lemma_overwritten<T>(s: Seq<T>, at: int, b: Seq<T>)
    requires
        0 <= at,
        at + b.len() <= s.len(),
    ensures
        overwritten(s, at, b).len() == s.len(),
        overwritten(s, at, b).subrange(at, at + b.len()) == b,
        overwritten(s, at, b).take(at) == s.take(at),
        overwritten(s, at, b).skip(at + b.len()) == s.skip(at + b.len()),
{
    assert(overwritten(s, at, b).subrange(at, at + b.len()) =~= b);
    assert(overwritten(s, at, b).take(at) =~= s.take(at));
    assert(overwritten(s, at, b).skip(at + b.len()) =~= s.skip(at + b.len()));
}

} // verus!
