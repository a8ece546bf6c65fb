//! Network addresses, as plain values.

use vstd::prelude::*;

use crate::bytes::same_bytes;
use crate::text;
use crate::text::{say, say_hex, say_number};

verus! {

/// An IP address.
#[derive(Debug, Clone, Copy, PartialEq, Eq)]
pub enum IpAddr {
    /// IPv4.
    V4([u8; 4]),
    /// IPv6.
    V6([u8; 16]),
}

/// An IP address, as its family and octets.
pub struct Ip {
    /// IPv4 rather than IPv6.
    pub v4: bool,
    /// The octets, 4 or 16.
    pub octets: Seq<u8>,
}

impl View for IpAddr {
    type V = Ip;

    open spec fn view(&self) -> Ip {
        match self {
            IpAddr::V4(o) => Ip { v4: true, octets: o@ },
            IpAddr::V6(o) => Ip { v4: false, octets: o@ },
        }
    }
}

/// An IP address and a port.
#[derive(Debug, Clone, Copy, PartialEq, Eq)]
pub struct SocketAddr {
    /// The address.
    pub ip: IpAddr,
    /// The port.
    pub port: u16,
}

/// An endpoint, as its address and port.
pub struct Endpoint {
    /// The address.
    pub ip: Ip,
    /// The port.
    pub port: u16,
}

impl View for SocketAddr {
    type V = Endpoint;

    open spec fn view(&self) -> Endpoint {
        Endpoint { ip: self.ip@, port: self.port }
    }
}

/// Whether every octet is zero, as in the address a wildcard bind has.
pub open spec fn unspecified(ip: Ip) -> bool {
    forall|i: int| 0 <= i < ip.octets.len() ==> #[trigger] ip.octets[i] == 0
}

fn all_zero(b: &[u8]) -> (r: bool)
    ensures
        r == (forall|i: int| 0 <= i < b@.len() ==> #[trigger] b@[i] == 0),
{
    let n: usize = b.len();
    for i in 0..n
        invariant
            n == b@.len(),
            forall|j: int| 0 <= j < i ==> #[trigger] b@[j] == 0,
    {
        if b[i] != 0 {
            return false;
        }
    }
    true
}

impl IpAddr {
    /// Whether this is the wildcard address.
    pub fn is_unspecified(&self) -> (r: bool)
        ensures
            r == unspecified(self@),
    {
        match self {
            IpAddr::V4(o) => {
                let s = vstd::array::array_as_slice(o);
                assert(s@ == self@.octets);
                all_zero(s)
            },
            IpAddr::V6(o) => {
                let s = vstd::array::array_as_slice(o);
                assert(s@ == self@.octets);
                all_zero(s)
            },
        }
    }

    /// Whether both are the same address.
    pub fn same(&self, other: &IpAddr) -> (r: bool)
        ensures
            r == (self@ == other@),
    {
        match (self, other) {
            (IpAddr::V4(a), IpAddr::V4(b)) => same_bytes(
                vstd::array::array_as_slice(a),
                vstd::array::array_as_slice(b),
            ),
            (IpAddr::V6(a), IpAddr::V6(b)) => same_bytes(
                vstd::array::array_as_slice(a),
                vstd::array::array_as_slice(b),
            ),
            _ => false,
        }
    }
}

impl SocketAddr {
    /// The endpoint of `ip` and `port`.
    pub fn new(ip: IpAddr, port: u16) -> (r: SocketAddr)
        ensures
            r@ == (Endpoint { ip: ip@, port }),
            r.ip == ip,
            r.port == port,
    {
        SocketAddr { ip, port }
    }

    /// Whether both are the same endpoint.
    pub fn same(&self, other: &SocketAddr) -> (r: bool)
        ensures
            r == (self@ == other@),
    {
        self.port == other.port && self.ip.same(&other.ip)
    }
}

// ---------------------------------------------------------------------------
// Order
// ---------------------------------------------------------------------------

/// Whether `a` comes before `b`, octet by octet.
pub open spec fn octets_before(a: Seq<u8>, b: Seq<u8>) -> bool
    decreases a.len(),
{
    if b.len() == 0 {
        false
    } else if a.len() == 0 {
        true
    } else if a[0] != b[0] {
        a[0] < b[0]
    } else {
        octets_before(a.drop_first(), b.drop_first())
    }
}

/// Whether endpoint `a` comes before `b`: IPv4 before IPv6, then by address,
/// then by port.
pub open spec fn before(a: Endpoint, b: Endpoint) -> bool {
    if a.ip.v4 != b.ip.v4 {
        a.ip.v4
    } else if a.ip.octets != b.ip.octets {
        octets_before(a.ip.octets, b.ip.octets)
    } else {
        a.port < b.port
    }
}

fn less_octets(a: &[u8], b: &[u8]) -> (r: bool)
    ensures
        r == octets_before(a@, b@),
{
    let n: usize = a.len();
    let m: usize = b.len();
    let mut i: usize = 0;
    assert(a@.skip(0) =~= a@ && b@.skip(0) =~= b@);
    while i < n && i < m
        invariant
            i <= n == a@.len(),
            i <= m == b@.len(),
            octets_before(a@, b@) == octets_before(a@.skip(i as int), b@.skip(i as int)),
        decreases n - i,
    {
        assert(a@.skip(i as int)[0] == a@[i as int]);
        assert(b@.skip(i as int)[0] == b@[i as int]);
        if a[i] != b[i] {
            return a[i] < b[i];
        }
        assert(a@.skip(i as int).drop_first() =~= a@.skip(i + 1));
        assert(b@.skip(i as int).drop_first() =~= b@.skip(i + 1));
        i = i + 1;
    }
    i < m
}

proof fn lemma_octets_order(a: Seq<u8>, b: Seq<u8>, c: Seq<u8>)
    ensures
        !octets_before(a, a),
        octets_before(a, b) && octets_before(b, c) ==> octets_before(a, c),
        octets_before(a, b) || octets_before(b, a) || a == b,
        !(octets_before(a, b) && octets_before(b, a)),
    decreases a.len(),
{
    if a.len() > 0 {
        let b1 = if b.len() > 0 {
            b.drop_first()
        } else {
            b
        };
        let c1 = if c.len() > 0 {
            c.drop_first()
        } else {
            c
        };
        lemma_octets_order(a.drop_first(), b1, c1);
        if b.len() > 0 && a[0] == b[0] && a.drop_first() == b.drop_first() {
            assert(a =~= seq![a[0]] + a.drop_first());
            assert(b =~= seq![b[0]] + b.drop_first());
        }
    } else if b.len() == 0 {
        assert(a =~= b);
    }
}

/// Endpoints are in a strict total order.
pub proof fn lemma_endpoint_order(a: Endpoint, b: Endpoint, c: Endpoint)
    ensures
        !before(a, a),
        before(a, b) && before(b, c) ==> before(a, c),
        before(a, b) || before(b, a) || a == b,
        !(before(a, b) && before(b, a)),
{
    lemma_octets_order(a.ip.octets, b.ip.octets, c.ip.octets);
    lemma_octets_order(b.ip.octets, c.ip.octets, a.ip.octets);
    lemma_octets_order(a.ip.octets, c.ip.octets, b.ip.octets);
}

impl IpAddr {
    /// Whether this is an IPv4 address.
    pub fn is_ipv4(&self) -> (r: bool)
        ensures
            r == self@.v4,
    {
        match self {
            IpAddr::V4(_) => true,
            IpAddr::V6(_) => false,
        }
    }

    fn octets(&self) -> (r: &[u8])
        ensures
            r@ == self@.octets,
    {
        match self {
            IpAddr::V4(o) => vstd::array::array_as_slice(o),
            IpAddr::V6(o) => vstd::array::array_as_slice(o),
        }
    }
}

impl SocketAddr {
    /// Whether this endpoint comes before `other`.
    pub fn precedes(&self, other: &SocketAddr) -> (r: bool)
        ensures
            r == before(self@, other@),
    {
        if self.ip.is_ipv4() != other.ip.is_ipv4() {
            return self.ip.is_ipv4();
        }
        if !same_bytes(self.ip.octets(), other.ip.octets()) {
            return less_octets(self.ip.octets(), other.ip.octets());
        }
        self.port < other.port
    }
}

// ---------------------------------------------------------------------------
// Text
// ---------------------------------------------------------------------------

/// Four octets, dotted.
pub open spec fn dotted(o: Seq<u8>) -> Seq<char> {
    text::decimal(o[0] as nat) + "."@ + text::decimal(o[1] as nat) + "."@ + text::decimal(
        o[2] as nat,
    ) + "."@ + text::decimal(o[3] as nat)
}

/// The 16-bit segments of an IPv6 address.
pub open spec fn segments(o: Seq<u8>) -> Seq<u16> {
    Seq::new(8, |i: int| (o[2 * i] * 256 + o[2 * i + 1]) as u16)
}

/// How many segments from `i` on are zero.
pub open spec fn zero_run(s: Seq<u16>, i: int) -> nat
    decreases s.len() - i,
{
    if i < 0 || i >= s.len() || s[i] != 0 {
        0
    } else {
        1 + zero_run(s, i + 1)
    }
}

/// Where the longest run of zero segments starts, of those below `k`; the
/// first of several.
pub open spec fn longest_run(s: Seq<u16>, k: nat) -> int
    decreases k,
{
    if k <= 1 {
        0
    } else {
        let b = longest_run(s, (k - 1) as nat);
        if zero_run(s, k - 1) > zero_run(s, b) {
            k - 1
        } else {
            b
        }
    }
}

/// Segments `from .. to`, in hexadecimal between colons.
pub open spec fn colons(s: Seq<u16>, from: int, to: int) -> Seq<char>
    decreases to - from,
{
    if from >= to {
        seq![]
    } else if from + 1 == to {
        text::lower_hex(s[from] as nat)
    } else {
        colons(s, from, to - 1) + ":"@ + text::lower_hex(s[to - 1] as nat)
    }
}

/// Whether an IPv6 address maps an IPv4 one.
pub open spec fn maps_v4(o: Seq<u8>) -> bool {
    (forall|i: int| 0 <= i < 10 ==> #[trigger] o[i] == 0) && o[10] == 0xff && o[11] == 0xff
}

/// An address, written out: IPv4 dotted; IPv6 in hexadecimal segments, the
/// longest run of two or more zero segments left out, a mapped IPv4 address
/// dotted.
pub open spec fn ip_text(ip: Ip) -> Seq<char> {
    if ip.v4 {
        dotted(ip.octets)
    } else if maps_v4(ip.octets) {
        "::ffff:"@ + dotted(ip.octets.skip(12))
    } else {
        let s = segments(ip.octets);
        let b = longest_run(s, 8);
        let n = zero_run(s, b);
        if n > 1 {
            colons(s, 0, b) + "::"@ + colons(s, (b + n) as int, 8)
        } else {
            colons(s, 0, 8)
        }
    }
}

/// An endpoint, written out.
pub open spec fn endpoint_text(e: Endpoint) -> Seq<char> {
    if e.ip.v4 {
        ip_text(e.ip) + ":"@ + text::decimal(e.port as nat)
    } else {
        "["@ + ip_text(e.ip) + "]:"@ + text::decimal(e.port as nat)
    }
}

fn say_dotted(s: &mut String, o: &[u8], at: usize)
    requires
        at + 4 <= o@.len(),
    ensures
        final(s)@ == old(s)@ + dotted(o@.skip(at as int)),
{
    let ghost b = s@;
    let ghost t = o@.skip(at as int);
    assert(t[0] == o@[at as int] && t[1] == o@[at + 1] && t[2] == o@[at + 2] && t[3] == o@[at
        + 3]);
    say_number(s, o[at] as u64);
    say(s, ".");
    say_number(s, o[at + 1] as u64);
    say(s, ".");
    say_number(s, o[at + 2] as u64);
    say(s, ".");
    say_number(s, o[at + 3] as u64);
    assert(s@ =~= b + dotted(t));
}

fn run_from(s: &[u16; 8], i: usize) -> (r: usize)
    requires
        i <= 8,
    ensures
        r == zero_run(s@, i as int),
        i + r <= 8,
    decreases 8 - i,
{
    if i >= 8 || s[i] != 0 {
        0
    } else {
        1 + run_from(s, i + 1)
    }
}

fn say_colons(t: &mut String, s: &[u16; 8], from: usize, to: usize)
    requires
        to <= 8,
    ensures
        final(t)@ == old(t)@ + colons(s@, from as int, to as int),
{
    let ghost b = t@;
    let mut i: usize = from;
    assert(t@ =~= b + colons(s@, from as int, from as int));
    while i < to
        invariant
            to <= 8,
            i >= from,
            i <= to || i == from,
            t@ == b + colons(s@, from as int, i as int),
        decreases to - i,
    {
        if i > from {
            say(t, ":");
        }
        say_hex(t, s[i] as u64);
        assert(t@ =~= b + colons(s@, from as int, i + 1));
        i = i + 1;
    }
    if from >= to {
        assert(colons(s@, from as int, to as int) =~= colons(s@, from as int, i as int));
    }
}

impl IpAddr {
    /// The address, written out.
    pub fn to_text(&self) -> (r: String)
        ensures
            r@ == ip_text(self@),
    {
        let mut t: String = String::new();
        assert(t@ =~= seq![]);
        match self {
            IpAddr::V4(o) => {
                let b = vstd::array::array_as_slice(o);
                say_dotted(&mut t, b, 0);
                assert(o@.skip(0) =~= o@);
                assert(t@ =~= dotted(self@.octets));
            },
            IpAddr::V6(o) => {
                let mut mapped: bool = o[10] == 0xff && o[11] == 0xff;
                for i in 0..10usize
                    invariant
                        mapped == (o@[10] == 0xff && o@[11] == 0xff && forall|j: int|
                            0 <= j < i ==> #[trigger] o@[j] == 0),
                {
                    if o[i] != 0 {
                        mapped = false;
                    }
                }
                if mapped {
                    say(&mut t, "::ffff:");
                    say_dotted(&mut t, vstd::array::array_as_slice(o), 12);
                    assert(t@ =~= ip_text(self@));
                    return t;
                }
                let mut s = [0u16; 8];
                for i in 0..8usize
                    invariant
                        forall|j: int| 0 <= j < i ==> #[trigger] s@[j] == segments(o@)[j],
                {
                    s[i] = o[2 * i] as u16 * 256 + o[2 * i + 1] as u16;
                }
                assert(s@ =~= segments(o@));
                let mut best: usize = 0;
                for k in 1..8usize
                    invariant
                        best < 8,
                        best == longest_run(s@, k as nat),
                {
                    if run_from(&s, k) > run_from(&s, best) {
                        best = k;
                    }
                }
                let n: usize = run_from(&s, best);
                if n > 1 {
                    say_colons(&mut t, &s, 0, best);
                    say(&mut t, "::");
                    say_colons(&mut t, &s, best + n, 8);
                } else {
                    say_colons(&mut t, &s, 0, 8);
                }
                assert(t@ =~= ip_text(self@));
            },
        }
        t
    }
}

impl SocketAddr {
    /// The endpoint, written out.
    pub fn to_text(&self) -> (r: String)
        ensures
            r@ == endpoint_text(self@),
    {
        let mut t: String = String::new();
        assert(t@ =~= seq![]);
        let ip = self.ip.to_text();
        if self.ip.is_ipv4() {
            say(&mut t, ip.as_str());
            say(&mut t, ":");
        } else {
            say(&mut t, "[");
            say(&mut t, ip.as_str());
            say(&mut t, "]:");
        }
        say_number(&mut t, self.port as u64);
        assert(t@ =~= endpoint_text(self@));
        t
    }
}

// ---------------------------------------------------------------------------
// What the texts say
// ---------------------------------------------------------------------------

/// Of two endpoints of one family the one comes first whose address is smaller
/// at the first octet they differ in; where the addresses are the same, the one
/// with the smaller port; and every IPv4 endpoint comes before every IPv6 one.
pub proof fn lemma_before(a: Endpoint, b: Endpoint, k: int)
    requires
        a.ip.v4 == b.ip.v4 ==> a.ip.octets.len() == b.ip.octets.len(),
        0 <= k,
        forall|i: int| 0 <= i < k && i < a.ip.octets.len() ==> a.ip.octets[i] == b.ip.octets[i],
    ensures
        a.ip.v4 && !b.ip.v4 ==> before(a, b) && !before(b, a),
        a.ip.v4 == b.ip.v4 && k < a.ip.octets.len() && a.ip.octets[k] != b.ip.octets[k] ==> (before(
            a,
            b,
        ) <==> a.ip.octets[k] < b.ip.octets[k]),
        a.ip.v4 == b.ip.v4 && k == a.ip.octets.len() ==> (before(a, b) <==> a.port < b.port),
{
    if a.ip.v4 == b.ip.v4 {
        if k == a.ip.octets.len() {
            assert(a.ip.octets =~= b.ip.octets);
        } else if k < a.ip.octets.len() && a.ip.octets[k] != b.ip.octets[k] {
            lemma_octets_at(a.ip.octets, b.ip.octets, k);
        }
    }
}

proof fn lemma_octets_at(a: Seq<u8>, b: Seq<u8>, k: int)
    requires
        0 <= k < a.len(),
        k < b.len(),
        a[k] != b[k],
        forall|i: int| 0 <= i < k ==> a[i] == b[i],
    ensures
        octets_before(a, b) <==> a[k] < b[k],
    decreases k,
{
    if k > 0 {
        lemma_octets_at(a.drop_first(), b.drop_first(), k - 1);
    }
}

/// An IPv4 address is its four octets between dots, in order.
pub proof fn lemma_dotted(o: Seq<u8>)
    requires
        o.len() == 4,
    ensures
        text::split_at_each(ip_text(Ip { v4: true, octets: o }), '.') == Seq::new(
            4,
            |i: int| text::decimal(o[i] as nat),
        ),
{
    reveal_strlit(".");
    let parts = Seq::new(4, |i: int| text::decimal(o[i] as nat));
    assert forall|i: int| 0 <= i < parts.len() implies text::before(#[trigger] parts[i], '.')
        == parts[i].len() by {
        text::lemma_decimal(o[i] as nat);
        assert forall|j: int| 0 <= j < parts[i].len() implies parts[i][j] != '.' by {
            assert(text::is_digit(parts[i][j]));
        }
        text::lemma_before_is(parts[i], '.', parts[i].len() as int);
    }
    text::lemma_split_joined(parts, '.');
    assert("."@ =~= seq!['.']);
    reveal_with_fuel(text::joined, 5);
    let p1 = parts.drop_first();
    let p2 = p1.drop_first();
    let p3 = p2.drop_first();
    assert(p1[0] == parts[1] && p2[0] == parts[2] && p3[0] == parts[3]);
    assert(text::joined(parts, '.') =~= dotted(o));
}

/// A segment is two octets, the high one first.
pub proof fn lemma_segments(o: Seq<u8>, i: int)
    requires
        o.len() == 16,
        0 <= i < 8,
    ensures
        segments(o).len() == 8,
        segments(o)[i] as int / 256 == o[2 * i],
        segments(o)[i] as int % 256 == o[2 * i + 1],
{
}

/// A run of zero segments: `n` from `i` on are zero, and the one behind them is
/// not.
pub open spec fn zeroes_at(s: Seq<u16>, i: int, n: int) -> bool {
    &&& 0 <= i && 0 <= n && i + n <= s.len()
    &&& forall|j: int| i <= j < i + n ==> #[trigger] s[j] == 0
}

proof fn lemma_zero_run(s: Seq<u16>, i: int)
    requires
        0 <= i <= s.len(),
    ensures
        zeroes_at(s, i, zero_run(s, i) as int),
        i + zero_run(s, i) < s.len() ==> s[(i + zero_run(s, i)) as int] != 0,
    decreases s.len() - i,
{
    if i < s.len() && s[i] == 0 {
        lemma_zero_run(s, i + 1);
    }
}

proof fn lemma_longest_run(s: Seq<u16>, k: nat)
    requires
        0 < k <= s.len(),
    ensures
        0 <= longest_run(s, k) < k,
        forall|j: int|
            0 <= j < k ==> #[trigger] zero_run(s, j) <= zero_run(s, longest_run(s, k)),
        forall|j: int|
            0 <= j < longest_run(s, k) ==> #[trigger] zero_run(s, j) < zero_run(
                s,
                longest_run(s, k),
            ),
    decreases k,
{
    if k > 1 {
        lemma_longest_run(s, (k - 1) as nat);
    }
}

proof fn lemma_colons(s: Seq<u16>, from: int, to: int)
    requires
        0 <= from < to <= s.len(),
    ensures
        text::split_at_each(colons(s, from, to), ':') == Seq::new(
            (to - from) as nat,
            |i: int| text::lower_hex(s[from + i] as nat),
        ),
{
    let parts = Seq::new((to - from) as nat, |i: int| text::lower_hex(s[from + i] as nat));
    assert forall|i: int| 0 <= i < parts.len() implies text::before(#[trigger] parts[i], ':')
        == parts[i].len() by {
        text::lemma_lower_hex(s[from + i] as nat);
        assert forall|j: int| 0 <= j < parts[i].len() implies parts[i][j] != ':' by {
            let c = text::lower_hex(s[from + i] as nat)[j];
        }
        text::lemma_before_is(parts[i], ':', parts[i].len() as int);
    }
    text::lemma_split_joined(parts, ':');
    lemma_colons_joined(s, from, to);
}

proof fn lemma_colons_joined(s: Seq<u16>, from: int, to: int)
    requires
        0 <= from < to <= s.len(),
    ensures
        colons(s, from, to) == text::joined(
            Seq::new((to - from) as nat, |i: int| text::lower_hex(s[from + i] as nat)),
            ':',
        ),
    decreases to - from,
{
    let parts = Seq::new((to - from) as nat, |i: int| text::lower_hex(s[from + i] as nat));
    if from + 1 < to {
        lemma_colons_joined(s, from, to - 1);
        let init = Seq::new((to - 1 - from) as nat, |i: int| text::lower_hex(s[from + i] as nat));
        assert(parts =~= init.push(text::lower_hex(s[to - 1] as nat)));
        lemma_joined_push(init, text::lower_hex(s[to - 1] as nat), ':');
        reveal_strlit(":");
        assert(":"@ =~= seq![':']);
    }
}

proof fn lemma_joined_push(parts: Seq<Seq<char>>, p: Seq<char>, c: char)
    requires
        parts.len() > 0,
    ensures
        text::joined(parts.push(p), c) == text::joined(parts, c) + seq![c] + p,
    decreases parts.len(),
{
    let all = parts.push(p);
    assert(all.drop_first() =~= parts.drop_first().push(p));
    if parts.len() > 1 {
        lemma_joined_push(parts.drop_first(), p, c);
        assert(text::joined(all, c) =~= text::joined(parts, c) + seq![c] + p);
    } else {
        assert(all.drop_first() =~= seq![p]);
        assert(text::joined(seq![p], c) == p);
    }
}

/// An IPv6 address without two zero segments side by side is its eight segments
/// between colons, in order.
pub proof fn lemma_full_segments(o: Seq<u8>)
    requires
        o.len() == 16,
        forall|i: int, j: int|
            0 <= i < 7 && j == i + 1 ==> #[trigger] segments(o)[i] != 0 || #[trigger] segments(o)[j]
                != 0,
    ensures
        text::split_at_each(ip_text(Ip { v4: false, octets: o }), ':') == Seq::new(
            8,
            |i: int| text::lower_hex(segments(o)[i] as nat),
        ),
{
    let s = segments(o);
    if maps_v4(o) {
        assert(o[0] == 0 && o[1] == 0 && o[2] == 0 && o[3] == 0);
        assert(s[0] == 0 && s[1] == 0);
    }
    lemma_longest_run(s, 8);
    let b = longest_run(s, 8);
    lemma_zero_run(s, b);
    if zero_run(s, b) > 1 {
        assert(s[b] == 0 && s[b + 1] == 0);
    }
    lemma_colons(s, 0, 8);
    assert(Seq::new(8, |i: int| text::lower_hex(s[0 + i] as nat)) =~= Seq::new(
        8,
        |i: int| text::lower_hex(s[i] as nat),
    ));
}

/// An IPv6 address with zero segments side by side that maps no IPv4 one leaves
/// out a run of zero segments, no other run being longer: what stands before the
/// double colon are the segments before the run, and what stands behind it those
/// behind the run.
pub proof fn lemma_shortened(o: Seq<u8>, k: int)
    requires
        o.len() == 16,
        !maps_v4(o),
        0 <= k < 7,
        segments(o)[k] == 0 && segments(o)[k + 1] == 0,
    ensures
        exists|b: int, n: int|
            {
                &&& n >= 2
                &&& #[trigger] zeroes_at(segments(o), b, n)
                &&& forall|i: int, m: int| #[trigger] zeroes_at(segments(o), i, m) ==> m <= n
                &&& forall|i: int| 0 <= i < b ==> !#[trigger] zeroes_at(segments(o), i, n)
                &&& ip_text(Ip { v4: false, octets: o }) == colons(segments(o), 0, b) + "::"@
                    + colons(segments(o), b + n, 8)
            },
{
    let s = segments(o);
    lemma_longest_run(s, 8);
    let b = longest_run(s, 8);
    let n = zero_run(s, b) as int;
    lemma_zero_run(s, b);
    assert forall|i: int, m: int| #[trigger] zeroes_at(s, i, m) implies m <= n by {
        if m > 0 {
            lemma_run_reaches(s, i, m);
        }
    }
    assert(zeroes_at(s, k, 2));
    assert forall|i: int| 0 <= i < b implies !#[trigger] zeroes_at(s, i, n) by {
        if zeroes_at(s, i, n) {
            lemma_run_reaches(s, i, n);
        }
    }
    assert(zeroes_at(s, b, n));
}

proof fn lemma_run_reaches(s: Seq<u16>, i: int, m: int)
    requires
        zeroes_at(s, i, m),
        m > 0,
    ensures
        i < s.len(),
        zero_run(s, i) >= m,
{
    lemma_zero_run(s, i);
    if zero_run(s, i) < m {
        assert(s[(i + zero_run(s, i)) as int] == 0);
    }
}

/// The port stands behind the address and a colon; an IPv6 address stands in
/// brackets.
pub proof fn lemma_endpoint_text(ip: Ip, port: u16)
    ensures
        ip.v4 ==> endpoint_text(Endpoint { ip, port }) == ip_text(ip) + (":"@ + text::decimal(
            port as nat,
        )),
        !ip.v4 ==> endpoint_text(Endpoint { ip, port }) == "["@ + (ip_text(ip) + ("]:"@
            + text::decimal(port as nat))),
{
    let e = Endpoint { ip, port };
    if ip.v4 {
        assert(endpoint_text(e) =~= ip_text(ip) + (":"@ + text::decimal(port as nat)));
    } else {
        assert(endpoint_text(e) =~= "["@ + (ip_text(ip) + ("]:"@ + text::decimal(port as nat))));
    }
}

/// An IPv4 address that an IPv6 one maps is written as it is by itself.
pub proof fn lemma_mapped(o: Seq<u8>)
    requires
        o.len() == 16,
        forall|i: int| 0 <= i < 10 ==> #[trigger] o[i] == 0,
        o[10] == 255,
        o[11] == 255,
    ensures
        ip_text(Ip { v4: false, octets: o }) == "::ffff:"@ + ip_text(
            Ip { v4: true, octets: o.subrange(12, 16) },
        ),
{
    assert(o.skip(12) =~= o.subrange(12, 16));
}

} // verus!
