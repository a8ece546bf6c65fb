//! Namespace UUIDs: how one is derived, and its text form.

use vstd::prelude::*;

use crate::bytes;
use crate::bytes::push_be;
use crate::text;
use crate::text::{chars_of, string_of};

verus! {

/// FNV-1a, 64-bit, of `b`.
pub open spec fn fnv1a(b: Seq<u8>) -> u64
    decreases b.len(),
{
    if b.len() == 0 {
        0xcbf2_9ce4_8422_2325
    } else {
        (fnv1a(b.drop_last()) ^ (b.last() as u64)).wrapping_mul(0x0000_0100_0000_01b3)
    }
}

/// The UUID of namespace `nsid` of the subsystem whose NQN is the bytes `nqn`:
/// the hash of the NQN, a marker byte, three zero bytes, the NSID.
pub open spec fn derived(nqn: Seq<u8>, nsid: u32) -> Seq<u8> {
    bytes::be(fnv1a(nqn) as nat, 8) + seq![0x80u8, 0u8, 0u8, 0u8] + bytes::be(nsid as nat, 4)
}

/// Derive a namespace's 16-byte UUID (Identify CNS 03h descriptor) from its
/// owning subsystem NQN and its NSID.
///
/// The NVMe host dedups namespaces by this identifier across the *whole host*,
/// not per subsystem — so it must be unique per `(subsystem, nsid)`, otherwise
/// two subsystems serving the same NSID collide and the host keeps only one
/// block device (`ignoring nsid N because of duplicate IDs`).
///
/// Deterministic — stable across restarts so persistent naming and multipath
/// stay consistent: an FNV-1a hash of the NQN fills the high 8 bytes, a marker
/// byte follows, and the NSID occupies the low 4 bytes.
pub fn namespace_uuid(nqn: &str, nsid: u32) -> (r: [u8; 16])
    ensures
        r@ == derived(vstd::utf8::encode_utf8(nqn@), nsid),
{
    let b = nqn.as_bytes();
    let mut hash: u64 = 0xcbf2_9ce4_8422_2325;
    let n: usize = b.len();
    assert(b@.take(0) =~= seq![]);
    for i in 0..n
        invariant
            n == b@.len(),
            hash == fnv1a(b@.take(i as int)),
    {
        proof {
            assert(b@.take(i as int + 1).drop_last() =~= b@.take(i as int));
        }
        hash = (hash ^ (b[i] as u64)).wrapping_mul(0x0000_0100_0000_01b3);
    }
    assert(b@.take(n as int) =~= b@);
    let mut v: Vec<u8> = Vec::new();
    push_be(&mut v, hash as u128, 8);
    v.push(0x80);
    v.push(0);
    v.push(0);
    v.push(0);
    push_be(&mut v, nsid as u128, 4);
    proof {
        bytes::lemma_be(hash as nat, 8);
        bytes::lemma_be(nsid as nat, 4);
        assert(v@ =~= derived(vstd::utf8::encode_utf8(nqn@), nsid));
    }
    sixteen(&v)
}

/// The 16 bytes of `v` as an array.
fn sixteen(v: &Vec<u8>) -> (r: [u8; 16])
    requires
        v@.len() == 16,
    ensures
        r@ == v@,
{
    let mut r = [0u8; 16];
    for i in 0..16usize
        invariant
            v@.len() == 16,
            forall|j: int| 0 <= j < i ==> r@[j] == v@[j],
    {
        r[i] = v[i];
    }
    assert(r@ =~= v@);
    r
}

/// Two derived UUIDs are the same only if the NSIDs are, and the hashes of the
/// NQNs; none is all zero, the value hosts take for "no identifier".
pub proof fn lemma_derived_differs(a: Seq<u8>, i: u32, b: Seq<u8>, j: u32)
    ensures
        derived(a, i) == derived(b, j) <==> i == j && fnv1a(a) == fnv1a(b),
        derived(a, i) != bytes::zeroes(16),
        derived(a, i).len() == 16,
        derived(a, i).subrange(12, 16) == bytes::be(i as nat, 4),
{
    let x = derived(a, i);
    let y = derived(b, j);
    bytes::lemma_pow256();
    bytes::lemma_be(fnv1a(a) as nat, 8);
    bytes::lemma_be(fnv1a(b) as nat, 8);
    bytes::lemma_be(i as nat, 4);
    bytes::lemma_be(j as nat, 4);
    assert(x.subrange(0, 8) =~= bytes::be(fnv1a(a) as nat, 8));
    assert(y.subrange(0, 8) =~= bytes::be(fnv1a(b) as nat, 8));
    assert(x.subrange(12, 16) =~= bytes::be(i as nat, 4));
    assert(y.subrange(12, 16) =~= bytes::be(j as nat, 4));
    assert(x[8] == 0x80);
    assert(bytes::zeroes(16)[8] == 0);
}

/// Whether `c` is a hexadecimal digit.
pub open spec fn is_hex(c: char) -> bool {
    '0' <= c <= '9' || 'a' <= c <= 'f' || 'A' <= c <= 'F'
}

/// The value of hexadecimal digit `c`.
pub open spec fn hex_value(c: char) -> nat {
    if c <= '9' {
        (c as int - 48) as nat
    } else if c <= 'F' {
        (c as int - 55) as nat
    } else {
        (c as int - 87) as nat
    }
}

/// The lower-case hexadecimal digit of value `d`.
pub open spec fn hex_char(d: nat) -> char {
    if d < 10 {
        (d + 48) as char
    } else {
        (d + 87) as char
    }
}

/// Where in the text the hexadecimal digit `k` of 32 stands.
pub open spec fn digit_pos(k: int) -> int {
    k + if k >= 20 {
        4int
    } else if k >= 16 {
        3
    } else if k >= 12 {
        2
    } else if k >= 8 {
        1
    } else {
        0
    }
}

/// Whether `t` is the hyphenated form: 8-4-4-4-12 hexadecimal digits.
pub open spec fn is_hyphenated(t: Seq<char>) -> bool {
    &&& t.len() == 36
    &&& t[8] == '-' && t[13] == '-' && t[18] == '-' && t[23] == '-'
    &&& forall|k: int| 0 <= k < 32 ==> is_hex(t[#[trigger] digit_pos(k)])
}

/// The bytes that hyphenated text writes.
pub open spec fn bytes_of(t: Seq<char>) -> Seq<u8> {
    Seq::new(
        16,
        |i: int|
            (16 * hex_value(t[digit_pos(2 * i)]) + hex_value(t[digit_pos(2 * i + 1)])) as u8,
    )
}

/// The hyphenated text of 16 bytes, lower case.
pub open spec fn text_of(b: Seq<u8>) -> Seq<char> {
    Seq::new(
        36,
        |p: int|
            if p == 8 || p == 13 || p == 18 || p == 23 {
                '-'
            } else {
                let k = digit_at(p);
                if k % 2 == 0 {
                    hex_char(b[k / 2] as nat / 16)
                } else {
                    hex_char(b[k / 2] as nat % 16)
                }
            },
    )
}

/// Which hexadecimal digit stands at `p` of the text.
pub open spec fn digit_at(p: int) -> int {
    p - if p > 23 {
        4int
    } else if p > 18 {
        3
    } else if p > 13 {
        2
    } else if p > 8 {
        1
    } else {
        0
    }
}

fn hex_digit(c: char) -> (r: Option<u8>)
    ensures
        match r {
            Some(d) => is_hex(c) && d == hex_value(c) && d < 16,
            None => !is_hex(c),
        },
{
    let v: u32 = c as u32;
    if '0' <= c && c <= '9' {
        Some((v - 48) as u8)
    } else if 'a' <= c && c <= 'f' {
        Some((v - 87) as u8)
    } else if 'A' <= c && c <= 'F' {
        Some((v - 55) as u8)
    } else {
        None
    }
}

fn hex_digit_char(d: u8) -> (r: char)
    requires
        d < 16,
    ensures
        r == hex_char(d as nat),
{
    if d < 10 {
        (d + 48u8) as char
    } else {
        (d + 87u8) as char
    }
}

fn pos_of(k: usize) -> (r: usize)
    requires
        k < 32,
    ensures
        r == digit_pos(k as int),
        r < 36,
{
    let gap: usize = if k >= 20 {
        4
    } else if k >= 16 {
        3
    } else if k >= 12 {
        2
    } else if k >= 8 {
        1
    } else {
        0
    };
    k + gap
}

/// Parse a hyphenated UUID string (8-4-4-4-12 hex) into its 16 bytes.
pub fn parse_uuid(text: &str) -> (r: Option<[u8; 16]>)
    ensures
        match r {
            Some(b) => is_hyphenated(text@) && b@ == bytes_of(text@),
            None => !is_hyphenated(text@),
        },
{
    let t = chars_of(text);
    if t.len() != 36 || t[8] != '-' || t[13] != '-' || t[18] != '-' || t[23] != '-' {
        return None;
    }
    let mut r = [0u8; 16];
    for i in 0..16usize
        invariant
            t@ == text@,
            t@.len() == 36,
            t@[8] == '-' && t@[13] == '-' && t@[18] == '-' && t@[23] == '-',
            forall|k: int| 0 <= k < 2 * i ==> is_hex(t@[#[trigger] digit_pos(k)]),
            forall|j: int| 0 <= j < i ==> r@[j] == bytes_of(t@)[j],
    {
        let high = hex_digit(t[pos_of(2 * i)]);
        let low = hex_digit(t[pos_of(2 * i + 1)]);
        match (high, low) {
            (Some(h), Some(l)) => {
                r[i] = 16 * h + l;
                proof {
                    assert forall|k: int| 0 <= k < 2 * (i + 1) implies is_hex(
                        t@[#[trigger] digit_pos(k)],
                    ) by {
                        if k == 2 * i {
                        } else if k == 2 * i + 1 {
                        }
                    }
                }
            },
            _ => {
                proof {
                    assert(!is_hex(t@[digit_pos(2 * i as int)]) || !is_hex(
                        t@[digit_pos(2 * i + 1)],
                    ));
                }
                return None;
            },
        }
    }
    assert(r@ =~= bytes_of(t@));
    Some(r)
}

/// Format 16 UUID bytes as the hyphenated string form.
pub fn format_uuid(b: &[u8; 16]) -> (r: String)
    ensures
        r@ == text_of(b@),
{
    let mut cs: Vec<char> = Vec::new();
    for p in 0..36usize
        invariant
            cs@ == text_of(b@).take(p as int),
    {
        if p == 8 || p == 13 || p == 18 || p == 23 {
            cs.push('-');
        } else {
            let gap: usize = if p > 23 {
                4
            } else if p > 18 {
                3
            } else if p > 13 {
                2
            } else if p > 8 {
                1
            } else {
                0
            };
            let k: usize = p - gap;
            let byte: u8 = b[k / 2];
            if k % 2 == 0 {
                cs.push(hex_digit_char(byte / 16));
            } else {
                cs.push(hex_digit_char(byte % 16));
            }
        }
        assert(cs@ =~= text_of(b@).take(p as int + 1));
    }
    assert(text_of(b@).take(36) =~= text_of(b@));
    string_of(cs.as_slice())
}

/// Formatting and parsing are inverse: the text of any 16 bytes parses back to
/// them.
pub proof fn lemma_format_parses(b: Seq<u8>)
    requires
        b.len() == 16,
    ensures
        is_hyphenated(text_of(b)),
        bytes_of(text_of(b)) == b,
{
    let t = text_of(b);
    assert forall|k: int| 0 <= k < 32 implies is_hex(t[#[trigger] digit_pos(k)]) && hex_value(
        t[digit_pos(k)],
    ) == (if k % 2 == 0 {
        b[k / 2] as nat / 16
    } else {
        b[k / 2] as nat % 16
    }) by {
        assert(digit_at(digit_pos(k)) == k);
    }
    assert forall|i: int| 0 <= i < 16 implies bytes_of(t)[i] == b[i] by {
        let h = t[digit_pos(2 * i)];
        let l = t[digit_pos(2 * i + 1)];
        assert(hex_value(h) == b[i] as nat / 16);
        assert(hex_value(l) == b[i] as nat % 16);
    }
    assert(bytes_of(t) =~= b);
}

/// Text that parses comes back from its bytes, in lower case.
pub proof fn lemma_parse_formats(t: Seq<char>)
    requires
        is_hyphenated(t),
    ensures
        text_of(bytes_of(t)).len() == t.len(),
        forall|p: int|
            0 <= p < 36 ==> {
                let c = #[trigger] text_of(bytes_of(t))[p];
                c == t[p] || ('A' <= t[p] <= 'F' && c as int == t[p] as int + 32)
            },
{
    let b = bytes_of(t);
    assert forall|p: int| 0 <= p < 36 implies {
        let c = #[trigger] text_of(b)[p];
        c == t[p] || ('A' <= t[p] <= 'F' && c as int == t[p] as int + 32)
    } by {
        if p == 8 || p == 13 || p == 18 || p == 23 {
        } else {
            let k = digit_at(p);
            assert(digit_pos(k) == p);
            assert(is_hex(t[digit_pos(k)]));
            let i = k / 2;
            assert(is_hex(t[digit_pos(2 * i)]) && is_hex(t[digit_pos(2 * i + 1)]));
            let h = hex_value(t[digit_pos(2 * i)]);
            let l = hex_value(t[digit_pos(2 * i + 1)]);
            assert(h < 16 && l < 16);
            assert(b[i] == 16 * h + l);
        }
    }
}

/// Each byte is written as its two hexadecimal digits, high one first, the bytes
/// in order, with hyphens behind the fourth, sixth, eighth and tenth.
pub proof fn lemma_text_digits(b: Seq<u8>, i: int)
    requires
        b.len() == 16,
        0 <= i < 16,
    ensures
        ({
            let at = 2 * i + (if i >= 10 {
                4int
            } else if i >= 8 {
                3
            } else if i >= 6 {
                2
            } else if i >= 4 {
                1
            } else {
                0
            });
            text::hex_value_of(text_of(b).subrange(at, at + 2)) == b[i]
        }),
        text_of(b)[8] == '-' && text_of(b)[13] == '-' && text_of(b)[18] == '-' && text_of(b)[23]
            == '-',
{
    let at = 2 * i + (if i >= 10 {
        4int
    } else if i >= 8 {
        3
    } else if i >= 6 {
        2
    } else if i >= 4 {
        1
    } else {
        0
    });
    let s = text_of(b).subrange(at, at + 2);
    reveal_with_fuel(text::hex_value_of, 3);
    assert(digit_at(at) == 2 * i && digit_at(at + 1) == 2 * i + 1);
    assert(s.drop_last().last() == s[0]);
    assert(s.drop_last().drop_last() =~= seq![]);
    assert(s[0] == hex_char(b[i] as nat / 16));
    assert(s[1] == hex_char(b[i] as nat % 16));
}

/// The hash is FNV-1a: from its offset basis on, each byte is mixed in and the
/// whole multiplied by the prime, modulo 2 to the 64.
pub proof fn lemma_fnv1a(s: Seq<u8>, x: u8)
    ensures
        fnv1a(Seq::empty()) == 14695981039346656037,
        fnv1a(s.push(x)) as int == ((fnv1a(s) ^ (x as u64)) * 1099511628211)
            % 0x1_0000_0000_0000_0000,
{
    assert(s.push(x).drop_last() =~= s);
}

/// What a UUID may be written with: hexadecimal digits of either case, each of
/// its usual value.
pub proof fn lemma_hex_digits(c: char)
    ensures
        is_hex(c) <==> text::hex_digit_value(c) >= 0,
        is_hex(c) ==> hex_value(c) == text::hex_digit_value(c),
{
}

} // verus!
