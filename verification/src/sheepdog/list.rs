//! Enumerating a cluster: its live VDIs, its ACL objects with their members,
//! and which inode objects a gateway stores itself.

use vstd::prelude::*;

use crate::order;
use crate::sheepdog::calls;
use crate::sheepdog::calls::{exist_reply, exist_request, read_reply, read_request};
use crate::sheepdog::error::CtlError;
use crate::sheepdog::inode;
use crate::sheepdog::inode::{
    clamp_count, parse_acl_state, parse_entry, parse_map, sort_vdis, AclInfo, AclState,
    TableEntry, VdiInfo, ACL_WINDOW,
};
use crate::sheepdog::wire;
use crate::sheepdog::wire::{
    vid_to_vdi_oid, Reply, Request, INO_OFF_VDI_EPOCH, SD_ACL_NONE, SD_INODE_HEADER_SIZE,
    SD_OP_EXIST, SD_OP_READ_OBJ, SD_RES_SUCCESS, SD_VDI_BITMAP_SIZE,
};
use crate::text;
use crate::text::{chars_of, less, owned};

verus! {

/// Bit `k` of `b`, the lowest first.
pub open spec fn bit_of(b: u8, k: nat) -> bool
    decreases k,
{
    if k == 0 {
        b % 2 == 1
    } else {
        bit_of(b / 2, (k - 1) as nat)
    }
}

/// The vids below `n` whose bit is set, in order. Vid 0 is the "no VDI"
/// sentinel and never a real volume.
pub open spec fn live(bitmap: Seq<u8>, n: nat) -> Seq<u32>
    decreases n,
{
    if n == 0 {
        seq![]
    } else {
        let v = n - 1;
        let rest = live(bitmap, v as nat);
        if v != 0 && bit_of(bitmap[v / 8], (v % 8) as nat) {
            rest.push(v as u32)
        } else {
            rest
        }
    }
}

/// The live vids of a cluster's VDI bitmap.
pub fn live_vids(bitmap: &[u8]) -> (r: Vec<u32>)
    requires
        bitmap@.len() == SD_VDI_BITMAP_SIZE,
    ensures
        r@ == live(bitmap@, 0x100_0000),
{
    let mut r: Vec<u32> = Vec::new();
    let n: usize = bitmap.len();
    let mut byte: usize = 0;
    while byte < n
        invariant
            byte <= n == bitmap@.len() == 0x20_0000,
            r@ == live(bitmap@, (byte * 8) as nat),
        decreases n - byte,
    {
        let bits: u8 = bitmap[byte];
        let mut b: u8 = bits;
        for bit in 0..8u32
            invariant
                byte < n == bitmap@.len() == 0x20_0000,
                bits == bitmap@[byte as int],
                forall|k: nat| k >= bit ==> #[trigger] bit_of(bits, k) == bit_of(
                    b,
                    (k - bit) as nat,
                ),
                r@ == live(bitmap@, (byte * 8 + bit) as nat),
        {
            let vid: u32 = byte as u32 * 8 + bit;
            proof {
                assert(vid / 8 == byte && vid % 8 == bit);
                assert(bit_of(bits, bit as nat) == bit_of(b, 0));
            }
            if b % 2 == 1 && vid != 0 {
                r.push(vid);
            }
            let ghost was = b;
            b = b / 2;
            proof {
                assert forall|k: nat| k >= bit + 1 implies #[trigger] bit_of(bits, k) == bit_of(
                    b,
                    (k - (bit + 1)) as nat,
                ) by {
                    assert(bit_of(bits, k) == bit_of(was, (k - bit) as nat));
                }
            }
        }
        byte = byte + 1;
    }
    r
}

/// What is live is what the bitmap marks, each vid once, in ascending order.
pub proof fn lemma_live(bitmap: Seq<u8>, n: nat)
    requires
        n <= 0x100_0000,
    ensures
        forall|i: int, j: int|
            0 <= i < j < live(bitmap, n).len() ==> (#[trigger] live(bitmap, n)[i]) < (
            #[trigger] live(bitmap, n)[j]),
        forall|v: u32| #[trigger]
            live(bitmap, n).contains(v) <==> 0 < v < n && bit_of(
                bitmap[v as int / 8],
                (v % 8) as nat,
            ),
    decreases n,
{
    if n > 0 {
        let m = (n - 1) as nat;
        let rest = live(bitmap, m);
        let all = live(bitmap, n);
        lemma_live(bitmap, m);
        assert forall|i: int| 0 <= i < rest.len() implies #[trigger] rest[i] < m by {
            assert(rest.contains(rest[i]));
        }
        assert forall|v: u32| #[trigger] all.contains(v) <==> 0 < v < n && bit_of(
            bitmap[v as int / 8],
            (v % 8) as nat,
        ) by {
            if v == m {
                assert(!rest.contains(v));
                if all.len() > rest.len() {
                    assert(all[rest.len() as int] == v);
                } else {
                    assert(all == rest);
                }
            } else {
                if all.contains(v) {
                    let i = choose|i: int| 0 <= i < all.len() && all[i] == v;
                    assert(i < rest.len());
                    assert(rest[i] == v);
                }
                if rest.contains(v) {
                    let i = choose|i: int| 0 <= i < rest.len() && rest[i] == v;
                    assert(all[i] == v);
                }
            }
        }
    }
}

// ---------------------------------------------------------------------------
// The VDI table
// ---------------------------------------------------------------------------

/// A walk over the cluster's live VDIs, one inode read each.
#[derive(Debug)]
pub struct Scan {
    /// The live vids.
    pub vids: Vec<u32>,
    /// How many of them have been read.
    pub at: usize,
    /// The entries found.
    pub entries: Vec<TableEntry>,
}

/// The entries of `v`.
pub open spec fn entries(v: Seq<TableEntry>) -> Seq<inode::Entry> {
    Seq::new(v.len(), |i: int| v[i]@)
}

/// `found` with what the inode read of `vid` adds: nothing where the object
/// could not be read, or is no VDI's.
pub open spec fn scanned(
    found: Seq<inode::Entry>,
    vid: u32,
    hdr: Seq<u8>,
    data: Seq<u8>,
) -> Seq<inode::Entry> {
    if wire::u32_at(hdr, 16) != SD_RES_SUCCESS {
        found
    } else {
        match inode::entry_in(vid, data) {
            Some(e) => found.push(e),
            None => found,
        }
    }
}

impl Scan {
    /// A walk over what `bitmap` marks live.
    pub fn new(bitmap: &[u8]) -> (r: Scan)
        requires
            bitmap@.len() == SD_VDI_BITMAP_SIZE,
        ensures
            r.vids@ == live(bitmap@, 0x100_0000),
            r.at == 0,
            entries(r.entries@) == Seq::<inode::Entry>::empty(),
    {
        let entries: Vec<TableEntry> = Vec::new();
        let r = Scan { vids: live_vids(bitmap), at: 0, entries };
        assert(self::entries(r.entries@) =~= seq![]);
        r
    }

    /// The next inode to read, if any is left.
    pub fn next(&self) -> (r: Option<Request>)
        ensures
            match r {
                Some(q) => self.at < self.vids@.len() && q.hdr@ == wire::obj_req(
                    SD_OP_READ_OBJ,
                    0,
                    0,
                    596,
                    wire::vdi_oid(self.vids@[self.at as int]),
                    0,
                    0,
                    0,
                ) && q.payload@ == Seq::<u8>::empty() && q.room == 596,
                None => self.at >= self.vids@.len(),
            },
    {
        if self.at < self.vids.len() {
            Some(read_request(vid_to_vdi_oid(self.vids[self.at]), 0, 596))
        } else {
            None
        }
    }

    /// Take the answer in.
    pub fn reply(&mut self, reply: &Reply)
        requires
            old(self).at < old(self).vids@.len(),
            reply.data@.len() == 596,
        ensures
            final(self).vids == old(self).vids,
            final(self).at == old(self).at + 1,
            entries(final(self).entries@) == scanned(
                entries(old(self).entries@),
                old(self).vids@[old(self).at as int],
                reply.hdr@,
                reply.data@,
            ),
    {
        let vid: u32 = self.vids[self.at];
        let n: usize = self.vids.len();
        self.at = self.at + 1;
        if reply.result() != SD_RES_SUCCESS {
            return ;
        }
        match parse_entry(vid, reply.data.as_slice()) {
            Some(e) => {
                let ghost before = self::entries(self.entries@);
                self.entries.push(e);
                assert(self::entries(self.entries@) =~= before.push(e@));
            },
            None => {},
        }
    }
}

/// The first `k` entries that are volumes.
pub open spec fn volumes(s: Seq<inode::Entry>, k: nat) -> Seq<inode::Vdi>
    decreases k,
{
    if k == 0 {
        seq![]
    } else if s[k - 1].is_acl {
        volumes(s, (k - 1) as nat)
    } else {
        volumes(s, (k - 1) as nat).push(s[k - 1].vdi)
    }
}

/// Every volume of the table, sorted by (name, tag).
///
/// ACL objects are VDIs too, but not volumes: they are left out here. Reported
/// volumes carry the ACL they belong to in [`VdiInfo::acl`], which an open
/// needs to reach them.
pub fn list_vdis(table: &Vec<TableEntry>) -> (r: Vec<VdiInfo>)
    ensures
        inode::vdis(r@) == inode::by_name(volumes(entries(table@), table@.len())),
{
    let mut v: Vec<VdiInfo> = Vec::new();
    let n: usize = table.len();
    assert(inode::vdis(v@) =~= seq![]);
    for i in 0..n
        invariant
            n == table@.len(),
            inode::vdis(v@) == volumes(entries(table@), i as nat),
    {
        if !table[i].is_acl {
            let e = table[i].info.clone();
            let ghost before = inode::vdis(v@);
            v.push(e);
            assert(inode::vdis(v@) =~= before.push(e@));
        }
    }
    sort_vdis(&v)
}

// ---------------------------------------------------------------------------
// ACL objects
// ---------------------------------------------------------------------------

/// The first volume `vid` of the table from entry `i` on.
pub open spec fn volume_named(s: Seq<inode::Entry>, vid: u32, i: int) -> Option<inode::Vdi>
    decreases s.len() - i,
{
    if i < 0 || i >= s.len() {
        None
    } else if s[i].vdi.vid == vid && !s[i].is_acl {
        Some(s[i].vdi)
    } else {
        volume_named(s, vid, i + 1)
    }
}

/// The members among the first `k` slots: volumes of the table whose own inode
/// names the ACL. A zero slot is a hole, not the end of the list.
pub open spec fn members_of(
    s: Seq<inode::Entry>,
    acl: u32,
    slots: Seq<u32>,
    k: nat,
) -> Seq<inode::Vdi>
    decreases k,
{
    if k == 0 {
        seq![]
    } else {
        let rest = members_of(s, acl, slots, (k - 1) as nat);
        let vid = slots[k - 1];
        if vid == 0 {
            rest
        } else {
            match volume_named(s, vid, 0) {
                Some(v) => if v.acl == acl {
                    rest.push(v)
                } else {
                    rest
                },
                None => rest,
            }
        }
    }
}

/// Where the first volume `vid` of the table is; the table's length where there
/// is none.
fn find_volume(table: &Vec<TableEntry>, vid: u32) -> (r: usize)
    ensures
        r <= table@.len(),
        volume_named(entries(table@), vid, 0) == if r < table@.len() {
            Some(table@[r as int].info@)
        } else {
            None
        },
{
    let m: usize = table.len();
    let ghost s = entries(table@);
    let mut i: usize = 0;
    while i < m && !(table[i].info.vid == vid && !table[i].is_acl)
        invariant
            i <= m == table@.len(),
            s == entries(table@),
            volume_named(s, vid, 0) == volume_named(s, vid, i as int),
        decreases m - i,
    {
        i = i + 1;
    }
    i
}

/// Resolve an ACL's member slots against the table. A listed vid that is not a
/// volume on the cluster, or whose inode names some other ACL, is left out: the
/// cluster would refuse to resolve the name under this ACL anyway.
/// [`mismatches`] tells which those are.
fn resolve(table: &Vec<TableEntry>, acl: u32, slots: &[u32]) -> (r: Vec<VdiInfo>)
    ensures
        inode::vdis(r@) == members_of(entries(table@), acl, slots@, slots@.len()),
{
    let mut r: Vec<VdiInfo> = Vec::new();
    let n: usize = slots.len();
    let ghost s = entries(table@);
    assert(inode::vdis(r@) =~= seq![]);
    for k in 0..n
        invariant
            n == slots@.len(),
            s == entries(table@),
            inode::vdis(r@) == members_of(s, acl, slots@, k as nat),
    {
        let vid: u32 = slots[k];
        if vid != 0 {
            let i: usize = find_volume(table, vid);
            if i < table.len() && table[i].info.acl == acl {
                let e = table[i].info.clone();
                let ghost before = inode::vdis(r@);
                r.push(e);
                assert(inode::vdis(r@) =~= before.push(e@));
            }
        }
    }
    r
}

// ---------------------------------------------------------------------------
// Where the ACL objects and the volumes disagree
// ---------------------------------------------------------------------------

/// One disagreement between an ACL's member list and the volumes' inodes. The
/// list is written before the member's inode, so a half-completed change leaves
/// one.
#[derive(Debug, PartialEq, Eq)]
pub enum Mismatch {
    /// The ACL lists this volume, whose inode names another ACL.
    Elsewhere(VdiInfo),
    /// The ACL lists this vid, which is not a volume on the cluster.
    NoVolume(u32),
    /// This volume names the ACL, which does not list it.
    Unlisted(VdiInfo),
}

/// A disagreement, as what is known of it.
pub enum Fault {
    /// Listed, but names another ACL.
    Elsewhere(inode::Vdi),
    /// Listed, but no volume.
    NoVolume(u32),
    /// Names the ACL, but is not listed.
    Unlisted(inode::Vdi),
}

impl View for Mismatch {
    type V = Fault;

    open spec fn view(&self) -> Fault {
        match self {
            Mismatch::Elsewhere(v) => Fault::Elsewhere(v@),
            Mismatch::NoVolume(vid) => Fault::NoVolume(*vid),
            Mismatch::Unlisted(v) => Fault::Unlisted(v@),
        }
    }
}

/// The disagreements of `v`.
pub open spec fn faults(v: Seq<Mismatch>) -> Seq<Fault> {
    Seq::new(v.len(), |i: int| v[i]@)
}

/// What is wrong with the first `k` slots of ACL `acl`, in the order of the
/// slots.
pub open spec fn slot_faults(s: Seq<inode::Entry>, acl: u32, slots: Seq<u32>, k: nat) -> Seq<Fault>
    decreases k,
{
    if k == 0 {
        seq![]
    } else {
        let rest = slot_faults(s, acl, slots, (k - 1) as nat);
        let vid = slots[k - 1];
        if vid == 0 {
            rest
        } else {
            match volume_named(s, vid, 0) {
                Some(v) => if v.acl == acl {
                    rest
                } else {
                    rest.push(Fault::Elsewhere(v))
                },
                None => rest.push(Fault::NoVolume(vid)),
            }
        }
    }
}

/// The volumes among the first `k` entries that name ACL `acl` and are in none
/// of its slots, in the order of the table.
pub open spec fn unlisted(s: Seq<inode::Entry>, acl: u32, slots: Seq<u32>, k: nat) -> Seq<Fault>
    decreases k,
{
    if k == 0 {
        seq![]
    } else {
        let rest = unlisted(s, acl, slots, (k - 1) as nat);
        let e = s[k - 1];
        if !e.is_acl && e.vdi.acl == acl && !slots.contains(e.vdi.vid) {
            rest.push(Fault::Unlisted(e.vdi))
        } else {
            rest
        }
    }
}

/// Whether `vid` is in one of the slots.
fn in_slots(slots: &[u32], vid: u32) -> (r: bool)
    ensures
        r == slots@.contains(vid),
{
    let n: usize = slots.len();
    for i in 0..n
        invariant
            n == slots@.len(),
            forall|j: int| 0 <= j < i ==> slots@[j] != vid,
    {
        if slots[i] == vid {
            return true;
        }
    }
    false
}

/// Where ACL `acl`, whose member slots are `slots`, and the table's volumes
/// disagree: what the slots list wrongly, then what they leave out.
pub fn mismatches(table: &Vec<TableEntry>, acl: u32, slots: &[u32]) -> (r: Vec<Mismatch>)
    ensures
        faults(r@) == slot_faults(entries(table@), acl, slots@, slots@.len()) + unlisted(
            entries(table@),
            acl,
            slots@,
            table@.len(),
        ),
{
    let mut r: Vec<Mismatch> = Vec::new();
    let n: usize = slots.len();
    let m: usize = table.len();
    let ghost s = entries(table@);
    assert(faults(r@) =~= seq![]);
    for k in 0..n
        invariant
            n == slots@.len(),
            s == entries(table@),
            faults(r@) == slot_faults(s, acl, slots@, k as nat),
    {
        let vid: u32 = slots[k];
        if vid != 0 {
            let i: usize = find_volume(table, vid);
            let ghost before = faults(r@);
            if i >= table.len() {
                r.push(Mismatch::NoVolume(vid));
                assert(faults(r@) =~= before.push(Fault::NoVolume(vid)));
            } else if table[i].info.acl != acl {
                let v = table[i].info.clone();
                let ghost said = v@;
                r.push(Mismatch::Elsewhere(v));
                assert(faults(r@) =~= before.push(Fault::Elsewhere(said)));
            }
        }
    }
    let ghost wrong = faults(r@);
    assert(faults(r@) =~= wrong + unlisted(s, acl, slots@, 0));
    for i in 0..m
        invariant
            m == table@.len(),
            s == entries(table@),
            faults(r@) == wrong + unlisted(s, acl, slots@, i as nat),
    {
        assert(s[i as int] == table@[i as int]@);
        if !table[i].is_acl && table[i].info.acl == acl && !in_slots(slots, table[i].info.vid) {
            let v = table[i].info.clone();
            let ghost said = v@;
            let ghost before = faults(r@);
            r.push(Mismatch::Unlisted(v));
            assert(faults(r@) =~= before.push(Fault::Unlisted(said)));
            assert(before.push(Fault::Unlisted(said)) =~= wrong + unlisted(
                s,
                acl,
                slots@,
                i as nat,
            ).push(Fault::Unlisted(said)));
        }
    }
    r
}

/// How many of the first `k` slots are no holes.
pub open spec fn filled(slots: Seq<u32>, k: nat) -> nat
    decreases k,
{
    if k == 0 {
        0
    } else {
        filled(slots, (k - 1) as nat) + if slots[k - 1] == 0 {
            0nat
        } else {
            1
        }
    }
}

/// No listed vid is dropped in silence: each slot that is no hole gives a member
/// or a disagreement. And every volume that names the ACL is listed by it, or is
/// a disagreement.
pub proof fn lemma_members_or_faults(s: Seq<inode::Entry>, acl: u32, slots: Seq<u32>)
    ensures
        members_of(s, acl, slots, slots.len()).len() + slot_faults(
            s,
            acl,
            slots,
            slots.len(),
        ).len() == filled(slots, slots.len()),
        forall|i: int|
            0 <= i < s.len() && !s[i].is_acl && (#[trigger] s[i]).vdi.acl == acl
                ==> slots.contains(s[i].vdi.vid) || unlisted(s, acl, slots, s.len()).contains(
                Fault::Unlisted(s[i].vdi),
            ),
{
    lemma_slots_accounted(s, acl, slots, slots.len());
    lemma_unlisted(s, acl, slots, s.len());
}

proof fn lemma_slots_accounted(s: Seq<inode::Entry>, acl: u32, slots: Seq<u32>, k: nat)
    ensures
        members_of(s, acl, slots, k).len() + slot_faults(s, acl, slots, k).len() == filled(
            slots,
            k,
        ),
    decreases k,
{
    if k > 0 {
        lemma_slots_accounted(s, acl, slots, (k - 1) as nat);
    }
}

proof fn lemma_unlisted(s: Seq<inode::Entry>, acl: u32, slots: Seq<u32>, k: nat)
    requires
        k <= s.len(),
    ensures
        forall|i: int|
            0 <= i < k && !s[i].is_acl && (#[trigger] s[i]).vdi.acl == acl && !slots.contains(
                s[i].vdi.vid,
            ) ==> unlisted(s, acl, slots, k).contains(Fault::Unlisted(s[i].vdi)),
    decreases k,
{
    if k > 0 {
        let m = (k - 1) as nat;
        let rest = unlisted(s, acl, slots, m);
        let all = unlisted(s, acl, slots, k);
        lemma_unlisted(s, acl, slots, m);
        assert forall|i: int|
            0 <= i < k && !s[i].is_acl && (#[trigger] s[i]).vdi.acl == acl && !slots.contains(
                s[i].vdi.vid,
            ) implies all.contains(Fault::Unlisted(s[i].vdi)) by {
            let f = Fault::Unlisted(s[i].vdi);
            if i == m {
                assert(all[rest.len() as int] == f);
            } else {
                let j = choose|j: int| 0 <= j < rest.len() && rest[j] == f;
                assert(all[j] == f);
            }
        }
    }
}

/// Whether one of `v` is the ACL object `vid`.
pub open spec fn is_found(v: Seq<inode::Acl>, vid: u32) -> bool {
    exists|j: int| 0 <= j < v.len() && (#[trigger] v[j]).vid == vid
}

/// The volumes among the first `k` entries that name an ACL which is none of
/// `found`, in the order of the table.
pub open spec fn strays(s: Seq<inode::Entry>, found: Seq<inode::Acl>, k: nat) -> Seq<inode::Vdi>
    decreases k,
{
    if k == 0 {
        seq![]
    } else {
        let rest = strays(s, found, (k - 1) as nat);
        let e = s[k - 1];
        if !e.is_acl && e.vdi.acl != SD_ACL_NONE && !is_found(found, e.vdi.acl) {
            rest.push(e.vdi)
        } else {
            rest
        }
    }
}

/// The volumes of the table that name an ACL which is none of `found`: the named
/// object is gone, or was never an ACL, and the cluster refuses every lookup of
/// them.
pub fn astray(table: &Vec<TableEntry>, found: &Vec<AclInfo>) -> (r: Vec<VdiInfo>)
    ensures
        inode::vdis(r@) == strays(entries(table@), acls(found@), table@.len()),
{
    let mut r: Vec<VdiInfo> = Vec::new();
    let m: usize = table.len();
    let n: usize = found.len();
    let ghost s = entries(table@);
    let ghost all = acls(found@);
    assert(inode::vdis(r@) =~= seq![]);
    for i in 0..m
        invariant
            m == table@.len(),
            n == found@.len(),
            s == entries(table@),
            all == acls(found@),
            inode::vdis(r@) == strays(s, all, i as nat),
    {
        assert(s[i as int] == table@[i as int]@);
        let acl: u32 = table[i].info.acl;
        let mut j: usize = 0;
        while j < n && found[j].vid != acl
            invariant
                j <= n == found@.len(),
                all == acls(found@),
                forall|x: int| 0 <= x < j ==> (#[trigger] all[x]).vid != acl,
            decreases n - j,
        {
            j = j + 1;
        }
        assert(j < n ==> all[j as int].vid == acl);
        if !table[i].is_acl && acl != SD_ACL_NONE && j == n {
            let e = table[i].info.clone();
            let ghost before = inode::vdis(r@);
            r.push(e);
            assert(inode::vdis(r@) =~= before.push(e@));
        }
    }
    r
}

/// Everything an ACL exports is listed by it and names it back.
pub proof fn lemma_members(s: Seq<inode::Entry>, acl: u32, slots: Seq<u32>, k: nat)
    requires
        k <= slots.len(),
    ensures
        members_of(s, acl, slots, k).len() <= k,
        forall|i: int|
            0 <= i < members_of(s, acl, slots, k).len() ==> (#[trigger] members_of(
                s,
                acl,
                slots,
                k,
            )[i]).acl == acl && slots.contains(members_of(s, acl, slots, k)[i].vid),
    decreases k,
{
    if k > 0 {
        lemma_members(s, acl, slots, (k - 1) as nat);
        lemma_volume_named(s, slots[k - 1], 0);
    }
}

proof fn lemma_volume_named(s: Seq<inode::Entry>, vid: u32, i: int)
    ensures
        volume_named(s, vid, i) matches Some(v) ==> v.vid == vid,
    decreases s.len() - i,
{
    if 0 <= i < s.len() {
        lemma_volume_named(s, vid, i + 1);
    }
}

/// What ACL object `e` is, with its member slots and the window of its inode.
pub open spec fn acl_of(
    s: Seq<inode::Entry>,
    e: inode::Entry,
    slots: Seq<u32>,
    window: Seq<u8>,
) -> inode::Acl {
    inode::Acl {
        name: e.vdi.name,
        vid: e.vdi.vid,
        max_data_id_nr: e.max_data_id_nr,
        vdis: inode::by_name(members_of(s, e.vdi.vid, slots, slots.len())),
        hosts: inode::member_names(window, 15),
        epoch: wire::u64_at(window, 0),
    }
}

/// Whether ACL `a` lists before `b`: by name, then by vid.
pub open spec fn acl_before(a: inode::Acl, b: inode::Acl) -> bool {
    text::text_less(a.name, b.name) || (a.name == b.name && a.vid < b.vid)
}

/// `s` sorted by (name, vid), equals in the order they came.
pub open spec fn by_acl_name(s: Seq<inode::Acl>) -> Seq<inode::Acl> {
    order::stable(s, |a: inode::Acl, b: inode::Acl| acl_before(a, b))
}

/// The ACLs of `v`.
pub open spec fn acls(v: Seq<AclInfo>) -> Seq<inode::Acl> {
    Seq::new(v.len(), |i: int| v[i]@)
}

/// The volumes of the first of `v` from `i` on whose vid is `vid`; none where
/// there is no such ACL.
pub open spec fn volumes_of(v: Seq<inode::Acl>, vid: u32, i: int) -> Seq<inode::Vdi>
    decreases v.len() - i,
{
    if i < 0 || i >= v.len() {
        seq![]
    } else if v[i].vid == vid {
        v[i].vdis
    } else {
        volumes_of(v, vid, i + 1)
    }
}

/// The volumes that belong to the ACL object `vid`, out of all `found`.
pub fn acl_members(found: Vec<AclInfo>, vid: u32) -> (r: Vec<VdiInfo>)
    ensures
        inode::vdis(r@) == volumes_of(acls(found@), vid, 0),
{
    let ghost all = acls(found@);
    let mut left = found;
    let n: usize = left.len();
    let mut i: usize = 0;
    while i < n
        invariant
            i <= n == left@.len(),
            all == acls(found@),
            all == acls(left@),
            volumes_of(all, vid, 0) == volumes_of(all, vid, i as int),
        decreases n - i,
    {
        if left[i].vid == vid {
            let acl = left.swap_remove(i);
            assert(acl@ == all[i as int]);
            return acl.vdis;
        }
        assert(all[i as int] == left@[i as int]@);
        i = i + 1;
    }
    let none: Vec<VdiInfo> = Vec::new();
    assert(inode::vdis(none@) =~= seq![]);
    none
}

fn acl_less(a: &AclInfo, b: &AclInfo) -> (r: bool)
    ensures
        r == acl_before(a@, b@),
{
    let x = chars_of(a.name.as_str());
    let y = chars_of(b.name.as_str());
    if less(x.as_slice(), y.as_slice()) {
        return true;
    }
    text::same_chars(x.as_slice(), y.as_slice()) && a.vid < b.vid
}

/// Put `a` where it belongs in `v`, behind its equals.
fn insert_acl(v: &mut Vec<AclInfo>, a: AclInfo)
    ensures
        forall|s: Seq<inode::Acl>|
            acls(old(v)@) == #[trigger] by_acl_name(s) ==> acls(final(v)@) == by_acl_name(
                s.push(a@),
            ),
{
    let m: usize = v.len();
    let mut at: usize = 0;
    let ghost f = |a: inode::Acl, b: inode::Acl| acl_before(a, b);
    while at < m && !acl_less(&a, &v[at])
        invariant
            at <= m == v@.len(),
            f == (|a: inode::Acl, b: inode::Acl| acl_before(a, b)),
            forall|j: int| 0 <= j < at ==> !f(a@, #[trigger] acls(v@)[j]),
        decreases m - at,
    {
        at = at + 1;
    }
    let ghost before = acls(v@);
    proof {
        order::lemma_slot_is(before, a@, f, at as int);
        assert forall|s: Seq<inode::Acl>| before == #[trigger] by_acl_name(s) implies by_acl_name(
            s.push(a@),
        ) == before.insert(at as int, a@) by {
            assert(s.push(a@).drop_last() =~= s);
            assert(s.push(a@).last() == a@);
        }
    }
    let ghost said = a@;
    v.insert(at, a);
    assert(acls(v@) =~= before.insert(at as int, said));
}

/// What a walk over the ACL objects is waiting for.
#[derive(Debug)]
pub enum WalkStage {
    /// Nothing: the next entry is to be looked at.
    Between,
    /// The member slots of the entry it is at.
    Members,
    /// The names and epoch of the entry it is at, whose slots are these.
    State(Vec<u32>),
}

/// A walk over the ACL objects of a VDI table.
#[derive(Debug)]
pub struct AclWalk {
    /// The table.
    pub table: Vec<TableEntry>,
    /// The entry the walk is at.
    pub at: usize,
    /// What it is waiting for.
    pub stage: WalkStage,
    /// The ACLs found.
    pub found: Vec<AclInfo>,
}

/// Slots an ACL object's count has read.
pub open spec fn slots_of(e: inode::Entry) -> nat {
    if e.max_data_id_nr <= 0x10_0000 {
        e.max_data_id_nr as nat
    } else {
        0x10_0000
    }
}

/// The first ACL object of the table from entry `i` on.
pub open spec fn next_acl(s: Seq<inode::Entry>, i: int) -> int
    decreases s.len() - i,
{
    if i < 0 || i >= s.len() || s[i].is_acl {
        i
    } else {
        next_acl(s, i + 1)
    }
}

impl AclWalk {
    /// While an answer is awaited, the walk is at an ACL object.
    pub open spec fn wf(&self) -> bool {
        &&& self.at <= self.table@.len()
        &&& !(self.stage is Between) ==> self.at < self.table@.len()
            && self.table@[self.at as int].is_acl
        &&& self.stage is Members ==> slots_of(self.table@[self.at as int]@) > 0
    }

    /// A walk over `table`.
    pub fn new(table: Vec<TableEntry>) -> (r: AclWalk)
        ensures
            r.wf(),
            r.table == table,
            r.at == 0,
            r.stage is Between,
            acls(r.found@) == by_acl_name(seq![]),
    {
        let found: Vec<AclInfo> = Vec::new();
        let r = AclWalk { table, at: 0, stage: WalkStage::Between, found };
        assert(acls(r.found@) =~= by_acl_name(seq![]));
        r
    }

    /// What to ask next, if the walk is not over: the member slots of the next
    /// ACL object, or its state where it has none.
    pub fn next(&mut self) -> (r: Option<Request>)
        requires
            old(self).wf(),
            old(self).stage is Between,
        ensures
            final(self).wf(),
            final(self).table == old(self).table,
            final(self).found == old(self).found,
            final(self).at == next_acl(entries(old(self).table@), old(self).at as int),
            ({
                let e = entries(old(self).table@)[final(self).at as int];
                match r {
                    None => final(self).at == old(self).table@.len()
                        && final(self).stage is Between,
                    Some(q) => {
                        &&& final(self).at < old(self).table@.len()
                        &&& q.payload@ == Seq::<u8>::empty()
                        &&& if slots_of(e) == 0 {
                            &&& final(self).stage matches WalkStage::State(v) && v@ == Seq::<
                                u32,
                            >::empty()
                            &&& asks_state(q, e.vdi.vid)
                        } else {
                            &&& final(self).stage is Members
                            &&& q.room == slots_of(e) * 4
                            &&& q.hdr@ == wire::obj_req(
                                SD_OP_READ_OBJ,
                                0,
                                0,
                                (slots_of(e) * 4) as u32,
                                wire::vdi_oid(e.vdi.vid),
                                0,
                                0,
                                4664,
                            )
                        }
                    },
                }
            }),
    {
        let n: usize = self.table.len();
        while self.at < n && !self.table[self.at].is_acl
            invariant
                n == self.table@.len(),
                self.at <= n,
                self.table == old(self).table,
                self.found == old(self).found,
                self.stage == old(self).stage,
                self.stage is Between,
                next_acl(entries(self.table@), old(self).at as int) == next_acl(
                    entries(self.table@),
                    self.at as int,
                ),
            decreases n - self.at,
        {
            self.at = self.at + 1;
        }
        if self.at >= n {
            return None;
        }
        let vid: u32 = self.table[self.at].info.vid;
        let count: usize = clamp_count(self.table[self.at].max_data_id_nr);
        if count == 0 {
            self.stage = WalkStage::State(Vec::new());
            Some(acl_state(vid))
        } else {
            self.stage = WalkStage::Members;
            Some(read_request(vid_to_vdi_oid(vid), SD_INODE_HEADER_SIZE, count as u32 * 4))
        }
    }

    /// Where the ACL object whose state is awaited and the volumes disagree;
    /// nothing at any other time.
    pub fn mismatches(&self) -> (r: Vec<Mismatch>)
        requires
            self.wf(),
        ensures
            faults(r@) == match self.stage {
                WalkStage::State(slots) => {
                    let s = entries(self.table@);
                    let acl = s[self.at as int].vdi.vid;
                    slot_faults(s, acl, slots@, slots@.len()) + unlisted(s, acl, slots@, s.len())
                },
                _ => seq![],
            },
    {
        match &self.stage {
            WalkStage::State(slots) => mismatches(
                &self.table,
                self.table[self.at].info.vid,
                slots.as_slice(),
            ),
            _ => {
                let none: Vec<Mismatch> = Vec::new();
                assert(faults(none@) =~= seq![]);
                none
            },
        }
    }

    /// Take the answer in. After the member slots the state is to be asked;
    /// after the state the ACL object is done.
    pub fn reply(&mut self, reply: &Reply) -> (r: Result<Option<Request>, CtlError>)
        requires
            old(self).wf(),
            !(old(self).stage is Between),
            old(self).stage is Members ==> reply.data@.len() == slots_of(
                old(self).table@[old(self).at as int]@,
            ) * 4,
            old(self).stage is State ==> reply.data@.len() == ACL_WINDOW,
        ensures
            final(self).wf(),
            final(self).table == old(self).table,
            ({
                let s = entries(old(self).table@);
                let e = s[old(self).at as int];
                match calls::read_answer(reply.hdr@) {
                    Err(x) => r == Err::<Option<Request>, CtlError>(x) && *final(self)
                        == *old(self),
                    Ok(_) => match old(self).stage {
                        WalkStage::Members => {
                            &&& final(self).at == old(self).at
                            &&& final(self).found == old(self).found
                            &&& final(self).stage matches WalkStage::State(v) && v@
                                == inode::map_in(reply.data@, slots_of(e))
                            &&& r matches Ok(Some(q)) && asks_state(q, e.vdi.vid)
                        },
                        WalkStage::State(slots) => {
                            &&& final(self).at == old(self).at + 1
                            &&& final(self).stage is Between
                            &&& r matches Ok(None)
                            &&& forall|was: Seq<inode::Acl>|
                                acls(old(self).found@) == #[trigger] by_acl_name(was) ==> acls(
                                    final(self).found@,
                                ) == by_acl_name(was.push(acl_of(s, e, slots@, reply.data@)))
                        },
                        WalkStage::Between => true,
                    },
                }
            }),
    {
        match read_reply(&reply.hdr) {
            Err(e) => {
                return Err(e);
            },
            Ok(()) => {},
        }
        let vid: u32 = self.table[self.at].info.vid;
        let mut stage = WalkStage::Between;
        std::mem::swap(&mut stage, &mut self.stage);
        match stage {
            WalkStage::Members => {
                let count: usize = clamp_count(self.table[self.at].max_data_id_nr);
                self.stage = WalkStage::State(parse_map(reply.data.as_slice(), count));
                Ok(Some(acl_state(vid)))
            },
            WalkStage::State(slots) => {
                let state = parse_acl_state(reply.data.as_slice());
                let vdis = resolve(&self.table, vid, slots.as_slice());
                let n: usize = self.table.len();
                let info = AclInfo {
                    name: owned(self.table[self.at].info.name.as_str()),
                    vid,
                    max_data_id_nr: self.table[self.at].max_data_id_nr,
                    vdis: sort_vdis(&vdis),
                    hosts: state.hosts,
                    epoch: state.epoch,
                };
                insert_acl(&mut self.found, info);
                self.at = self.at + 1;
                Ok(None)
            },
            WalkStage::Between => Ok(None),
        }
    }
}

/// Whether `q` asks for the mutable state of ACL object `vid`.
pub open spec fn asks_state(q: Request, vid: u32) -> bool {
    &&& q.hdr@ == wire::obj_req(SD_OP_READ_OBJ, 0, 0, 3896, wire::vdi_oid(vid), 0, 0, 544)
    &&& q.payload@ == Seq::<u8>::empty()
    &&& q.room == ACL_WINDOW
}

/// Read one ACL object's mutable state: the member names in its inode and its
/// `vdi_epoch`, in one read — the epoch is the version *of* the member list as
/// much as of anything else, and reading them apart would let one round trip
/// land either side of a change.
pub fn acl_state(vid: u32) -> (r: Request)
    ensures
        asks_state(r, vid),
{
    read_request(vid_to_vdi_oid(vid), INO_OFF_VDI_EPOCH as u64, 3896)
}

/// What the answer to that means.
pub fn acl_state_reply(reply: &Reply) -> (r: Result<AclState, CtlError>)
    requires
        reply.data@.len() == ACL_WINDOW,
    ensures
        match calls::read_answer(reply.hdr@) {
            Err(e) => r == Err::<AclState, CtlError>(e),
            Ok(_) => r matches Ok(s) && s.epoch == wire::u64_at(reply.data@, 0) && text::texts(
                s.hosts@,
            ) == inode::member_names(reply.data@, 15),
        },
{
    match read_reply(&reply.hdr) {
        Err(e) => Err(e),
        Ok(()) => Ok(parse_acl_state(reply.data.as_slice())),
    }
}

// ---------------------------------------------------------------------------
// Locality
// ---------------------------------------------------------------------------

/// The questions that tell, for each of `vids` in the order asked, whether the
/// gateway stores its *inode* object itself rather than having to fetch it
/// from another node.
///
/// This is the locality that decides a namespace's ANA state: a gateway that
/// is one of an object's nodes serves reads and writes of it out of its own
/// store, while any other gateway adds a network hop each way.
pub fn vdi_objects_local(vids: &[u32]) -> (r: Vec<Request>)
    ensures
        r@.len() == vids@.len(),
        forall|k: int|
            0 <= k < vids@.len() ==> (#[trigger] r@[k]).hdr@ == wire::sheep_obj_req(
                SD_OP_EXIST,
                wire::vdi_oid(vids@[k]),
            ) && r@[k].payload@ == Seq::<u8>::empty() && r@[k].room == 0,
{
    let mut r: Vec<Request> = Vec::new();
    let n: usize = vids.len();
    for k in 0..n
        invariant
            n == vids@.len(),
            r@.len() == k,
            forall|j: int|
                0 <= j < k ==> (#[trigger] r@[j]).hdr@ == wire::sheep_obj_req(
                    SD_OP_EXIST,
                    wire::vdi_oid(vids@[j]),
                ) && r@[j].payload@ == Seq::<u8>::empty() && r@[j].room == 0,
    {
        r.push(exist_request(vid_to_vdi_oid(vids[k])));
    }
    r
}

/// What the answer about `vid` means.
pub fn vdi_object_local(vid: u32, hdr: &[u8; 48]) -> (r: Result<bool, CtlError>)
    ensures
        r == calls::exist_answer(hdr@, wire::vdi_oid(vid)),
{
    exist_reply(hdr, vid_to_vdi_oid(vid))
}

// ---------------------------------------------------------------------------
// What the lists hold
// ---------------------------------------------------------------------------

/// A bit of a byte is the parity of what is left when the lower ones are shifted
/// out.
pub proof fn lemma_bit_of(b: u8, k: nat)
    ensures
        bit_of(b, k) <==> b as int / vstd::arithmetic::power2::pow2(k) as int % 2 == 1,
    decreases k,
{
    vstd::arithmetic::power2::lemma2_to64();
    if k == 0 {
        assert(b as int / 1 == b as int);
    } else {
        let p = vstd::arithmetic::power2::pow2((k - 1) as nat) as int;
        lemma_bit_of(b / 2, (k - 1) as nat);
        vstd::arithmetic::power2::lemma_pow2_unfold(k);
        vstd::arithmetic::power2::lemma_pow2_pos((k - 1) as nat);
        vstd::arithmetic::div_mod::lemma_div_denominator(b as int, 2, p);
        assert(vstd::arithmetic::power2::pow2(k) as int == 2 * p);
        assert((b / 2) as int == b as int / 2);
        assert((b as int / 2) / p == b as int / (2 * p));
    }
}

/// What is listed as volumes are the entries that are no ACL objects, in order.
pub proof fn lemma_volumes(s: Seq<inode::Entry>, k: nat)
    requires
        k <= s.len(),
    ensures
        volumes(s, k) == s.take(k as int).filter(|e: inode::Entry| !e.is_acl).map_values(
            |e: inode::Entry| e.vdi,
        ),
    decreases k,
{
    reveal(Seq::filter);
    let keep = |e: inode::Entry| !e.is_acl;
    let vdi = |e: inode::Entry| e.vdi;
    if k > 0 {
        lemma_volumes(s, (k - 1) as nat);
        assert(s.take(k as int).drop_last() =~= s.take(k - 1));
        assert(s.take(k as int).last() == s[k - 1]);
        let rest = s.take(k - 1).filter(keep);
        assert(s.take(k as int).filter(keep) == if keep(s[k - 1]) {
            rest.push(s[k - 1])
        } else {
            rest
        });
        assert(rest.push(s[k - 1]).map_values(vdi) =~= rest.map_values(vdi).push(s[k - 1].vdi));
    } else {
        assert(s.take(0).filter(keep).map_values(vdi) =~= seq![]);
    }
}

/// The walk stops at the first ACL object there is, and passes none.
pub proof fn lemma_next_acl(s: Seq<inode::Entry>, i: int)
    requires
        0 <= i <= s.len(),
    ensures
        i <= next_acl(s, i) <= s.len(),
        next_acl(s, i) < s.len() ==> s[next_acl(s, i)].is_acl,
        forall|j: int| i <= j < next_acl(s, i) ==> !(#[trigger] s[j]).is_acl,
    decreases s.len() - i,
{
    if i < s.len() && !s[i].is_acl {
        lemma_next_acl(s, i + 1);
    }
}

/// Every volume that an ACL lists and that names it back is a member, and every
/// member is one.
pub proof fn lemma_member_of(s: Seq<inode::Entry>, acl: u32, slots: Seq<u32>, k: nat, i: int, e: int)
    requires
        k <= slots.len(),
        0 <= i < k,
        slots[i] != 0,
        0 <= e < s.len(),
        s[e].vdi.vid == slots[i],
        !s[e].is_acl,
        s[e].vdi.acl == acl,
        forall|j: int| 0 <= j < e ==> (#[trigger] s[j]).is_acl || s[j].vdi.vid != slots[i],
    ensures
        members_of(s, acl, slots, k).contains(s[e].vdi),
    decreases k,
{
    let m = (k - 1) as nat;
    let rest = members_of(s, acl, slots, m);
    let all = members_of(s, acl, slots, k);
    if i == m {
        lemma_first_volume(s, slots[i], 0, e);
        assert(all[rest.len() as int] == s[e].vdi);
    } else {
        lemma_member_of(s, acl, slots, m, i, e);
        let j = choose|j: int| 0 <= j < rest.len() && rest[j] == s[e].vdi;
        assert(all[j] == s[e].vdi);
    }
}

proof fn lemma_first_volume(s: Seq<inode::Entry>, vid: u32, k: int, e: int)
    requires
        0 <= k <= e < s.len(),
        s[e].vdi.vid == vid,
        !s[e].is_acl,
        forall|j: int| k <= j < e ==> (#[trigger] s[j]).is_acl || s[j].vdi.vid != vid,
    ensures
        volume_named(s, vid, k) == Some(s[e].vdi),
    decreases e - k,
{
    if k < e {
        assert(s[k].is_acl || s[k].vdi.vid != vid);
        lemma_first_volume(s, vid, k + 1, e);
    }
}

/// No ACL object is ever a member, and no hole: every member is a volume of the
/// table.
pub proof fn lemma_members_are_volumes(s: Seq<inode::Entry>, acl: u32, slots: Seq<u32>, k: nat)
    requires
        k <= slots.len(),
    ensures
        forall|i: int|
            0 <= i < members_of(s, acl, slots, k).len() ==> exists|e: int|
                0 <= e < s.len() && !(#[trigger] s[e]).is_acl && s[e].vdi == #[trigger] members_of(
                    s,
                    acl,
                    slots,
                    k,
                )[i],
        forall|i: int|
            0 <= i < members_of(s, acl, slots, k).len() ==> (#[trigger] members_of(
                s,
                acl,
                slots,
                k,
            )[i]).vid != 0,
    decreases k,
{
    if k > 0 {
        let m = (k - 1) as nat;
        lemma_members_are_volumes(s, acl, slots, m);
        let rest = members_of(s, acl, slots, m);
        let all = members_of(s, acl, slots, k);
        lemma_volume_named(s, slots[k - 1], 0);
        lemma_volume_of(s, slots[k - 1], 0);
        assert forall|i: int| 0 <= i < all.len() implies exists|e: int|
            0 <= e < s.len() && !(#[trigger] s[e]).is_acl && s[e].vdi == #[trigger] all[i] by {
            if i < rest.len() {
                assert(all[i] == rest[i]);
                let e = choose|e: int|
                    0 <= e < s.len() && !(#[trigger] s[e]).is_acl && s[e].vdi == rest[i];
                assert(s[e].vdi == all[i]);
            } else {
                let e = choose|e: int|
                    0 <= e < s.len() && !(#[trigger] s[e]).is_acl && s[e].vdi == all[i];
                assert(s[e].vdi == all[i]);
            }
        }
    }
}

proof fn lemma_volume_of(s: Seq<inode::Entry>, vid: u32, k: int)
    requires
        0 <= k,
    ensures
        volume_named(s, vid, k) matches Some(v) ==> exists|e: int|
            0 <= e < s.len() && !(#[trigger] s[e]).is_acl && s[e].vdi == v,
    decreases s.len() - k,
{
    if k < s.len() {
        if s[k].vdi.vid == vid && !s[k].is_acl {
            assert(s[k].vdi == s[k].vdi);
        } else {
            lemma_volume_of(s, vid, k + 1);
        }
    }
}

/// A volume is astray exactly where it names an ACL that was not found.
pub proof fn lemma_strays(s: Seq<inode::Entry>, found: Seq<inode::Acl>, k: nat, v: inode::Vdi)
    requires
        k <= s.len(),
    ensures
        strays(s, found, k).contains(v) <==> (exists|i: int|
            0 <= i < k && !(#[trigger] s[i]).is_acl && s[i].vdi == v) && v.acl != 0 && (forall|
            j: int,
        |
            0 <= j < found.len() ==> (#[trigger] found[j]).vid != v.acl),
    decreases k,
{
    if k > 0 {
        let m = (k - 1) as nat;
        lemma_strays(s, found, m, v);
        let rest = strays(s, found, m);
        let all = strays(s, found, k);
        if all.contains(v) {
            let i = choose|i: int| 0 <= i < all.len() && all[i] == v;
            if i < rest.len() {
                assert(rest[i] == v);
            }
        }
        if rest.contains(v) {
            let i = choose|i: int| 0 <= i < rest.len() && rest[i] == v;
            assert(all[i] == v);
        }
        if all.len() > rest.len() {
            assert(all[rest.len() as int] == s[m as int].vdi);
        }
    }
}

/// The volumes of an ACL object are those of the first that was found with its
/// id; none where there is none.
pub proof fn lemma_volumes_of(v: Seq<inode::Acl>, vid: u32, k: int, i: int)
    requires
        0 <= k <= i <= v.len(),
        forall|j: int| k <= j < i ==> (#[trigger] v[j]).vid != vid,
        i < v.len() ==> v[i].vid == vid,
    ensures
        volumes_of(v, vid, k) == (if i < v.len() {
            v[i].vdis
        } else {
            Seq::<inode::Vdi>::empty()
        }),
    decreases i - k,
{
    if k < i {
        assert(v[k].vid != vid);
        lemma_volumes_of(v, vid, k + 1, i);
    }
}

/// The ACL objects that were found are listed by name, and by id where they share
/// one; none is lost.
pub proof fn lemma_sorted_acls(s: Seq<inode::Acl>)
    ensures
        by_acl_name(s).to_multiset() == s.to_multiset(),
        by_acl_name(s).len() == s.len(),
        forall|i: int, j: int|
            0 <= i < j < s.len() ==> {
                let a = #[trigger] by_acl_name(s)[i];
                let b = #[trigger] by_acl_name(s)[j];
                &&& !text::text_less(b.name, a.name)
                &&& a.name == b.name ==> a.vid <= b.vid
            },
{
    let f = |a: inode::Acl, b: inode::Acl| acl_before(a, b);
    assert forall|a: inode::Acl, b: inode::Acl, c: inode::Acl| #[trigger] f(a, b) && #[trigger] f(
        b,
        c,
    ) implies f(a, c) by {
        lemma_acl_before(a, b, c);
    }
    assert forall|a: inode::Acl, b: inode::Acl, c: inode::Acl| !#[trigger] f(a, b) && !#[trigger] f(
        b,
        c,
    ) implies !f(a, c) by {
        lemma_acl_before(a, b, c);
    }
    assert forall|a: inode::Acl| !#[trigger] f(a, a) by {
        text::lemma_text_less_irreflexive(a.name);
    }
    order::lemma_stable(s, f);
}

proof fn lemma_acl_before(a: inode::Acl, b: inode::Acl, c: inode::Acl)
    ensures
        acl_before(a, b) && acl_before(b, c) ==> acl_before(a, c),
        !acl_before(a, b) && !acl_before(b, c) ==> !acl_before(a, c),
{
    text::lemma_text_less_total(a.name, b.name);
    text::lemma_text_less_total(b.name, c.name);
    text::lemma_text_less_total(a.name, c.name);
    text::lemma_text_less_irreflexive(a.name);
    text::lemma_text_less_irreflexive(b.name);
    if acl_before(a, b) && acl_before(b, c) {
        if text::text_less(a.name, b.name) && text::text_less(b.name, c.name) {
            text::lemma_text_less_transitive(a.name, b.name, c.name);
        }
    }
    if !acl_before(a, b) && !acl_before(b, c) {
        if text::text_less(b.name, a.name) && text::text_less(c.name, b.name) {
            text::lemma_text_less_transitive(c.name, b.name, a.name);
        }
        if text::text_less(a.name, c.name) && text::text_less(c.name, b.name) {
            text::lemma_text_less_transitive(a.name, c.name, b.name);
        }
        if text::text_less(a.name, c.name) && text::text_less(b.name, a.name) {
            text::lemma_text_less_transitive(b.name, a.name, c.name);
        }
    }
}

/// What an ACL object was read as has its own name, id and slot count, its
/// members and no others, and the names and the version of its own inode.
pub proof fn lemma_acl_of(
    s: Seq<inode::Entry>,
    e: inode::Entry,
    slots: Seq<u32>,
    window: Seq<u8>,
)
    ensures
        ({
            let a = acl_of(s, e, slots, window);
            &&& a.name == e.vdi.name
            &&& a.vid == e.vdi.vid
            &&& a.max_data_id_nr == e.max_data_id_nr
            &&& a.vdis.to_multiset() == members_of(s, e.vdi.vid, slots, slots.len()).to_multiset()
            &&& a.hosts == inode::member_names(window, 15)
            &&& a.epoch == wire::u64_at(window, 0)
        }),
{
    inode::lemma_sorted_vdis(members_of(s, e.vdi.vid, slots, slots.len()));
}

proof fn lemma_no_volume(s: Seq<inode::Entry>, vid: u32, i: int)
    requires
        0 <= i,
    ensures
        volume_named(s, vid, i) is None <==> forall|e: int|
            i <= e < s.len() ==> (#[trigger] s[e]).is_acl || s[e].vdi.vid != vid,
    decreases s.len() - i,
{
    if i < s.len() {
        lemma_no_volume(s, vid, i + 1);
        if volume_named(s, vid, i) is None {
            assert forall|e: int| i <= e < s.len() implies (#[trigger] s[e]).is_acl
                || s[e].vdi.vid != vid by {
                if e > i {
                    assert(i + 1 <= e < s.len());
                }
            }
        }
    }
}

/// A slot is told to list no volume exactly where it holds a number that no
/// volume of the table has; one that lists a volume is told wrong exactly where
/// that volume names another ACL.
pub proof fn lemma_slot_faults(s: Seq<inode::Entry>, acl: u32, slots: Seq<u32>, k: nat, vid: u32)
    requires
        k <= slots.len(),
    ensures
        slot_faults(s, acl, slots, k).contains(Fault::NoVolume(vid)) <==> vid != 0 && (exists|j: int|
            0 <= j < k && #[trigger] slots[j] == vid) && (forall|e: int|
            0 <= e < s.len() ==> (#[trigger] s[e]).is_acl || s[e].vdi.vid != vid),
        forall|v: inode::Vdi| #[trigger]
            slot_faults(s, acl, slots, k).contains(Fault::Elsewhere(v)) ==> v.acl != acl && v.vid
                != 0 && (exists|j: int| 0 <= j < k && #[trigger] slots[j] == v.vid) && (exists|e: int|
                0 <= e < s.len() && !(#[trigger] s[e]).is_acl && s[e].vdi == v),
        forall|v: inode::Vdi| #[trigger]
            slot_faults(s, acl, slots, k).contains(Fault::Unlisted(v)) ==> false,
    decreases k,
{
    if k > 0 {
        let m = (k - 1) as nat;
        lemma_slot_faults(s, acl, slots, m, vid);
        let rest = slot_faults(s, acl, slots, m);
        let all = slot_faults(s, acl, slots, k);
        let x = slots[k - 1];
        lemma_no_volume(s, x, 0);
        lemma_volume_named(s, x, 0);
        lemma_volume_of(s, x, 0);
        assert forall|f: Fault| #[trigger] all.contains(f) <==> rest.contains(f) || (all.len()
            > rest.len() && f == all.last()) by {
            if all.contains(f) {
                let i = choose|i: int| 0 <= i < all.len() && all[i] == f;
                if i < rest.len() {
                    assert(rest[i] == f);
                }
            }
            if rest.contains(f) {
                let i = choose|i: int| 0 <= i < rest.len() && rest[i] == f;
                assert(all[i] == f);
            }
            if all.len() > rest.len() {
                assert(all[all.len() - 1] == all.last());
            }
        }
        if exists|j: int| 0 <= j < k && #[trigger] slots[j] == vid {
            let j = choose|j: int| 0 <= j < k && #[trigger] slots[j] == vid;
            assert(j < m || x == vid);
        }
        assert(x == slots[k - 1]);
        assert forall|v: inode::Vdi| #[trigger] all.contains(Fault::Elsewhere(v)) implies v.acl
            != acl && v.vid != 0 && (exists|j: int| 0 <= j < k && #[trigger] slots[j] == v.vid) && (
        exists|e: int|
            0 <= e < s.len() && !(#[trigger] s[e]).is_acl && s[e].vdi == v) by {
            if rest.contains(Fault::Elsewhere(v)) {
                let j = choose|j: int| 0 <= j < m && #[trigger] slots[j] == v.vid;
                assert(slots[j] == v.vid);
            } else {
                assert(slots[k - 1] == v.vid);
            }
        }
        assert forall|v: inode::Vdi| #[trigger] all.contains(Fault::Unlisted(v)) implies false by {
            assert(!rest.contains(Fault::Unlisted(v)));
        }
    }
}

/// A volume is told to be left out exactly where it names the ACL and no slot of
/// the ACL has its number.
pub proof fn lemma_left_out(s: Seq<inode::Entry>, acl: u32, slots: Seq<u32>, k: nat, v: inode::Vdi)
    requires
        k <= s.len(),
    ensures
        unlisted(s, acl, slots, k).contains(Fault::Unlisted(v)) <==> v.acl == acl && (forall|j: int|
            0 <= j < slots.len() ==> #[trigger] slots[j] != v.vid) && (exists|e: int|
            0 <= e < k && !(#[trigger] s[e]).is_acl && s[e].vdi == v),
    decreases k,
{
    if k > 0 {
        let m = (k - 1) as nat;
        lemma_left_out(s, acl, slots, m, v);
        let rest = unlisted(s, acl, slots, m);
        let all = unlisted(s, acl, slots, k);
        let f = Fault::Unlisted(v);
        if all.contains(f) {
            let i = choose|i: int| 0 <= i < all.len() && all[i] == f;
            if i < rest.len() {
                assert(rest[i] == f);
            } else {
                assert(s[k - 1].vdi == v);
            }
        }
        if rest.contains(f) {
            let i = choose|i: int| 0 <= i < rest.len() && rest[i] == f;
            assert(all[i] == f);
        }
        if all.len() > rest.len() {
            assert(all[all.len() - 1] == Fault::Unlisted(s[k - 1].vdi));
        }
        if exists|e: int| 0 <= e < k && !(#[trigger] s[e]).is_acl && s[e].vdi == v {
            let e = choose|e: int| 0 <= e < k && !(#[trigger] s[e]).is_acl && s[e].vdi == v;
            assert(e < m || e == k - 1);
        }
    }
}

/// The state of an ACL object is asked for in one read of its inode, from byte 544
/// on, as many bytes as there is room for; nothing is sent along.
pub proof fn lemma_asks_state(q: Request, vid: u32)
    requires
        asks_state(q, vid),
    ensures
        q.hdr@.len() == 48,
        q.hdr@[1] == 2,
        wire::field(q.hdr@, 2, 2) == 0,
        wire::field(q.hdr@, 16, 8) == wire::vdi_oid(vid),
        wire::field(q.hdr@, 40, 8) == 544,
        wire::field(q.hdr@, 12, 4) == 3896,
        q.room == 3896,
        q.payload@.len() == 0,
{
    wire::lemma_obj_req_fields(SD_OP_READ_OBJ, 0, 0, 3896, wire::vdi_oid(vid), 0, 0, 544);
}

/// As many slots of an ACL object are read as it says it has, but no more than an
/// inode can list.
pub proof fn lemma_slots_of(e: inode::Entry)
    ensures
        slots_of(e) <= e.max_data_id_nr,
        slots_of(e) <= 1048576,
        slots_of(e) == e.max_data_id_nr || slots_of(e) == 1048576,
{
}

} // verus!
