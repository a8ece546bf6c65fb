//! What an inode says: a volume's identity and geometry, or an ACL object's
//! members.

use vstd::prelude::*;
use vstd::slice::slice_subrange;

use crate::bytes;
use crate::order;
use crate::sheepdog::wire;
use crate::sheepdog::wire::{
    read_u32, read_u64, INO_OFF_ACL_ID, INO_OFF_MAX_DATA_ID_NR, INO_OFF_NAME, INO_OFF_SNAP_CTIME,
    INO_OFF_TAG, INO_OFF_UUID, INO_OFF_VDI_FLAGS, INO_OFF_VDI_SIZE, SD_ACL_MAX_MEMBERS,
    SD_INODE_DATA_INDEX, SD_MAX_VDI_LEN, SD_MAX_VDI_TAG_LEN,
};
use crate::subsystem;
use crate::subsystem::HostAcl;
use crate::text;
use crate::text::{chars_of, less, owned, owned_texts};

verus! {

/// The text `String::from_utf8_lossy` reads out of `b`.
pub uninterp spec fn lossy_text(b: Seq<u8>) -> Seq<char>;

/// Calls `String::from_utf8_lossy`: the text of the bytes, with replacement
/// characters in place of what is not UTF-8; valid UTF-8 comes back as the
/// text it encodes.
#[verifier::external_body]
fn from_utf8_lossy(b: &[u8]) -> (r: String)
    ensures
        r@ == lossy_text(b@),
        vstd::utf8::valid_utf8(b@) ==> r@ == vstd::utf8::decode_utf8(b@),
{
    String::from_utf8_lossy(b).into_owned()
}

/// Bytes of `field` before its first zero.
pub open spec fn cstr_len(field: Seq<u8>) -> nat
    decreases field.len(),
{
    if field.len() == 0 || field[0] == 0 {
        0
    } else {
        1 + cstr_len(field.drop_first())
    }
}

/// The text of a fixed-width, NUL-padded field.
pub open spec fn cstr(field: Seq<u8>) -> Seq<char> {
    lossy_text(field.take(cstr_len(field) as int))
}

proof fn lemma_cstr_len(field: Seq<u8>, n: int)
    requires
        0 <= n <= field.len(),
        forall|i: int| 0 <= i < n ==> field[i] != 0,
        n == field.len() || field[n] == 0,
    ensures
        cstr_len(field) == n,
    decreases field.len(),
{
    if n > 0 {
        lemma_cstr_len(field.drop_first(), n - 1);
    }
}

/// Decode a fixed-width, NUL-padded inode string field.
pub fn read_cstr(field: &[u8]) -> (r: String)
    ensures
        r@ == cstr(field@),
        vstd::utf8::valid_utf8(field@.take(cstr_len(field@) as int)) ==> r@
            == vstd::utf8::decode_utf8(field@.take(cstr_len(field@) as int)),
{
    let n: usize = field.len();
    let mut end: usize = 0;
    while end < n && field[end] != 0
        invariant
            end <= n == field@.len(),
            forall|i: int| 0 <= i < end ==> field@[i] != 0,
        decreases n - end,
    {
        end = end + 1;
    }
    proof {
        lemma_cstr_len(field@, end as int);
        assert(field@.subrange(0, end as int) =~= field@.take(end as int));
    }
    from_utf8_lossy(slice_subrange(field, 0, end))
}

/// The inode's `uuid[16]`; none where it is all zero.
pub open spec fn uuid_in(inode: Seq<u8>) -> Option<Seq<u8>> {
    let u = inode.subrange(576, 592);
    if u == bytes::zeroes(16) {
        None
    } else {
        Some(u)
    }
}

/// An optional UUID, as its bytes.
pub open spec fn uuid_bytes(u: Option<[u8; 16]>) -> Option<Seq<u8>> {
    match u {
        Some(b) => Some(b@),
        None => None,
    }
}

/// Decode the inode header's `uuid[16]`, `None` for the all-zero value — the
/// same "unset" test `dog vdi list` applies before reporting the field.
pub fn read_uuid(inode: &[u8]) -> (r: Option<[u8; 16]>)
    requires
        inode@.len() >= 592,
    ensures
        uuid_bytes(r) == uuid_in(inode@),
{
    let mut uuid = [0u8; 16];
    let mut set: bool = false;
    let n: usize = inode.len();
    for i in 0..16usize
        invariant
            n == inode@.len() >= 592,
            forall|j: int| 0 <= j < i ==> uuid@[j] == inode@[576 + j],
            set == (exists|j: int| 0 <= j < i && #[trigger] inode@[576 + j] != 0),
    {
        let b: u8 = inode[INO_OFF_UUID + i];
        uuid[i] = b;
        if b != 0 {
            set = true;
            assert(inode@[576 + i as int] != 0);
        }
    }
    proof {
        let u = inode@.subrange(576, 592);
        assert(uuid@ =~= u);
        if set {
            let j = choose|j: int| 0 <= j < 16 && #[trigger] inode@[576 + j] != 0;
            assert(u[j] != bytes::zeroes(16)[j]);
        } else {
            assert forall|j: int| 0 <= j < 16 implies u[j] == 0 by {
                assert(inode@[576 + j] == 0);
            }
            assert(u =~= bytes::zeroes(16));
        }
    }
    if set {
        Some(uuid)
    } else {
        None
    }
}

/// One VDI found on a cluster.
#[derive(Debug, PartialEq, Eq)]
pub struct VdiInfo {
    /// VDI name — the `dog vdi list` NAME column, unique among a cluster's
    /// writable heads *within one ACL*.
    pub name: String,
    /// Snapshot tag; empty for the writable head.
    pub tag: String,
    /// The 24-bit VDI id, stable for the life of the VDI.
    pub vid: u32,
    /// Volume size in bytes.
    pub size: u64,
    /// True for a snapshot: a frozen VDI, servable only read-only.
    pub snapshot: bool,
    /// The VDI's cluster-assigned UUID (inode `uuid[16]`) — the identity to
    /// export as the namespace UUID. `None` for an inode carrying none.
    pub uuid: Option<[u8; 16]>,
    /// The vid of the ACL object this VDI belongs to (inode `acl_id`), `0` for
    /// a VDI in no ACL. Every lookup of this VDI's name must carry it.
    pub acl: u32,
}

/// A VDI, as what is known of it.
pub struct Vdi {
    /// Name.
    pub name: Seq<char>,
    /// Tag.
    pub tag: Seq<char>,
    /// Id.
    pub vid: u32,
    /// Size.
    pub size: u64,
    /// Snapshot.
    pub snapshot: bool,
    /// UUID.
    pub uuid: Option<Seq<u8>>,
    /// ACL.
    pub acl: u32,
}

impl View for VdiInfo {
    type V = Vdi;

    open spec fn view(&self) -> Vdi {
        Vdi {
            name: self.name@,
            tag: self.tag@,
            vid: self.vid,
            size: self.size,
            snapshot: self.snapshot,
            uuid: uuid_bytes(self.uuid),
            acl: self.acl,
        }
    }
}

impl Clone for VdiInfo {
    fn clone(&self) -> (r: Self)
        ensures
            r@ == self@,
    {
        VdiInfo {
            name: owned(self.name.as_str()),
            tag: owned(self.tag.as_str()),
            vid: self.vid,
            size: self.size,
            snapshot: self.snapshot,
            uuid: self.uuid,
            acl: self.acl,
        }
    }
}

/// The VDIs of `v`.
pub open spec fn vdis(v: Seq<VdiInfo>) -> Seq<Vdi> {
    Seq::new(v.len(), |i: int| v[i]@)
}

/// Whether `a` lists before `b`: by name, then by tag.
pub open spec fn vdi_before(a: Vdi, b: Vdi) -> bool {
    text::text_less(a.name, b.name) || (a.name == b.name && text::text_less(a.tag, b.tag))
}

fn vdi_less(a: &VdiInfo, b: &VdiInfo) -> (r: bool)
    ensures
        r == vdi_before(a@, b@),
{
    let x = chars_of(a.name.as_str());
    let y = chars_of(b.name.as_str());
    if less(x.as_slice(), y.as_slice()) {
        return true;
    }
    if !text::same_chars(x.as_slice(), y.as_slice()) {
        return false;
    }
    let s = chars_of(a.tag.as_str());
    let t = chars_of(b.tag.as_str());
    less(s.as_slice(), t.as_slice())
}

/// `s` sorted by (name, tag), equals in the order they came.
pub open spec fn by_name(s: Seq<Vdi>) -> Seq<Vdi> {
    order::stable(s, |a: Vdi, b: Vdi| vdi_before(a, b))
}

/// `v` sorted by (name, tag), equals in the order they came.
pub fn sort_vdis(v: &Vec<VdiInfo>) -> (r: Vec<VdiInfo>)
    ensures
        vdis(r@) == by_name(vdis(v@)),
{
    let mut r: Vec<VdiInfo> = Vec::new();
    let n: usize = v.len();
    let ghost f = |a: Vdi, b: Vdi| vdi_before(a, b);
    assert(vdis(v@).take(0) =~= seq![]);
    assert(vdis(r@) =~= order::stable(vdis(v@).take(0), f));
    for i in 0..n
        invariant
            n == v@.len(),
            f == (|a: Vdi, b: Vdi| vdi_before(a, b)),
            vdis(r@) == order::stable(vdis(v@).take(i as int), f),
    {
        let e = v[i].clone();
        let m: usize = r.len();
        let mut at: usize = 0;
        while at < m && !vdi_less(&e, &r[at])
            invariant
                at <= m == r@.len(),
                f == (|a: Vdi, b: Vdi| vdi_before(a, b)),
                forall|j: int| 0 <= j < at ==> !f(e@, #[trigger] vdis(r@)[j]),
            decreases m - at,
        {
            at = at + 1;
        }
        let ghost before = r@;
        proof {
            order::lemma_slot_is(vdis(before), e@, f, at as int);
            assert(vdis(v@).take(i as int + 1).drop_last() =~= vdis(v@).take(i as int));
            assert(vdis(v@).take(i as int + 1).last() == e@);
        }
        r.insert(at, e);
        assert(vdis(r@) =~= vdis(before).insert(at as int, e@));
    }
    assert(vdis(v@).take(n as int) =~= vdis(v@));
    r
}

/// Sorting by (name, tag) loses no VDI and puts them in order.
pub proof fn lemma_sorted_vdis(s: Seq<Vdi>)
    ensures
        by_name(s).to_multiset() == s.to_multiset(),
        by_name(s).len() == s.len(),
        forall|i: int, j: int|
            0 <= i < j < s.len() ==> !vdi_before(
                #[trigger] by_name(s)[j],
                #[trigger] by_name(s)[i],
            ),
{
    let f = |a: Vdi, b: Vdi| vdi_before(a, b);
    assert forall|a: Vdi, b: Vdi, c: Vdi| #[trigger] f(a, b) && #[trigger] f(b, c) implies f(
        a,
        c,
    ) by {
        lemma_vdi_before(a, b, c);
    }
    assert forall|a: Vdi, b: Vdi, c: Vdi| !#[trigger] f(a, b) && !#[trigger] f(b, c) implies !f(
        a,
        c,
    ) by {
        lemma_vdi_before(a, b, c);
    }
    assert forall|a: Vdi| !#[trigger] f(a, a) by {
        text::lemma_text_less_irreflexive(a.name);
        text::lemma_text_less_irreflexive(a.tag);
    }
    order::lemma_stable(s, f);
}

proof fn lemma_vdi_before(a: Vdi, b: Vdi, c: Vdi)
    ensures
        vdi_before(a, b) && vdi_before(b, c) ==> vdi_before(a, c),
        !vdi_before(a, b) && !vdi_before(b, c) ==> !vdi_before(a, c),
{
    text::lemma_text_less_total(a.name, b.name);
    text::lemma_text_less_total(b.name, c.name);
    text::lemma_text_less_total(a.name, c.name);
    text::lemma_text_less_total(a.tag, b.tag);
    text::lemma_text_less_total(b.tag, c.tag);
    text::lemma_text_less_total(a.tag, c.tag);
    lemma_text_order(a.name, b.name, c.name);
    lemma_text_order(b.name, a.name, c.name);
    lemma_text_order(a.name, c.name, b.name);
    lemma_text_order(a.tag, b.tag, c.tag);
    lemma_text_order(b.tag, a.tag, c.tag);
    lemma_text_order(a.tag, c.tag, b.tag);
}

proof fn lemma_text_order(x: Seq<char>, y: Seq<char>, z: Seq<char>)
    ensures
        text::text_less(x, y) && text::text_less(y, z) ==> text::text_less(x, z),
        !text::text_less(x, x),
        text::text_less(x, y) ==> !text::text_less(y, x),
{
    text::lemma_text_less_irreflexive(x);
    if text::text_less(x, y) && text::text_less(y, z) {
        text::lemma_text_less_transitive(x, y, z);
    }
    if text::text_less(x, y) && text::text_less(y, x) {
        text::lemma_text_less_transitive(x, y, x);
    }
}

/// One ACL object found on a cluster: a VDI carrying `SD_VDI_FLAG_ACL`,
/// together with the volumes its `data_vdi_id[]` lists.
#[derive(Debug, PartialEq, Eq)]
pub struct AclInfo {
    /// ACL object name — the `dog acl list` NAME column.
    pub name: String,
    /// The ACL object's own 24-bit vid: the `acl_id` its members carry and the
    /// value every lookup and lock of a member passes.
    pub vid: u32,
    /// Slots of the ACL inode's member array in use (`max_data_id_nr`), holes
    /// included: the cluster's own count of the volumes in this ACL.
    pub max_data_id_nr: u32,
    /// The ACL's member VDIs, sorted by (name, tag), snapshots included.
    pub vdis: Vec<VdiInfo>,
    /// The ACL's member *names* (`dog acl add member`), in slot order: the
    /// hostnqns allowed to connect to the subsystem this ACL becomes. Empty
    /// for an ACL nobody has been added to, which constrains no host.
    pub hosts: Vec<String>,
    /// The ACL object's `vdi_epoch`: the cluster's own version counter for it
    /// (see [`AclState::epoch`]).
    pub epoch: u64,
}

/// An ACL object, as what is known of it.
pub struct Acl {
    /// Name.
    pub name: Seq<char>,
    /// Id.
    pub vid: u32,
    /// Member slots in use.
    pub max_data_id_nr: u32,
    /// Member VDIs.
    pub vdis: Seq<Vdi>,
    /// Member names.
    pub hosts: Seq<Seq<char>>,
    /// Version counter.
    pub epoch: u64,
}

impl View for AclInfo {
    type V = Acl;

    open spec fn view(&self) -> Acl {
        Acl {
            name: self.name@,
            vid: self.vid,
            max_data_id_nr: self.max_data_id_nr,
            vdis: vdis(self.vdis@),
            hosts: text::texts(self.hosts@),
            epoch: self.epoch,
        }
    }
}

/// The rule a member list expresses: the members and nobody else; with no
/// members, anybody.
pub open spec fn members_rule(hosts: Seq<Seq<char>>) -> subsystem::Admission {
    subsystem::Admission { any: hosts.len() == 0, hosts }
}

/// Turn an ACL object's member names into a subsystem host ACL — the one place
/// that decides what a member list *means*, so the startup snapshot and the
/// refresh can never drift apart.
///
/// The members are the hostnqns admitted and nobody else may connect. No
/// members at all is not a closed door but no door: an ACL nobody has been
/// added to expresses no opinion about hosts, so its subsystem admits any of
/// them, and access control begins with the first `dog acl add member`.
fn host_acl(hosts: Vec<String>) -> (r: HostAcl)
    ensures
        r@ == members_rule(text::texts(hosts@)),
{
    if hosts.len() == 0 {
        assert(text::texts(hosts@) =~= seq![]);
        HostAcl::any()
    } else {
        HostAcl::listed(hosts)
    }
}

impl AclInfo {
    /// The host ACL this ACL object's member list expresses.
    pub fn host_acl(&self) -> (r: HostAcl)
        ensures
            r@ == members_rule(self@.hosts),
    {
        host_acl(owned_texts(&self.hosts))
    }
}

/// One ACL object's mutable state, as a single read of its inode header sees
/// it: who may connect, and the cluster's version counter for the object.
#[derive(Debug, PartialEq, Eq)]
pub struct AclState {
    /// The ACL's member names, in slot order ([`AclInfo::hosts`]).
    pub hosts: Vec<String>,
    /// The inode header's `vdi_epoch`, which the cluster bumps whenever the
    /// ACL's *volume* membership changes (`dog acl add vdi` / `dog acl remove
    /// vdi`) and sets when the object is created.
    ///
    /// The one version number a Sheepdog cluster keeps for the thing a
    /// subsystem is made of, and so what a target reports as the discovery
    /// log's `GENCTR`. It says nothing about the *members* and nothing about
    /// who holds the volumes' locks, so a target that watches those advances
    /// the counter past the epoch on its own.
    pub epoch: u64,
}

impl AclState {
    /// The host ACL this member list expresses.
    pub fn host_acl(&self) -> (r: HostAcl)
        ensures
            r@ == members_rule(text::texts(self.hosts@)),
    {
        host_acl(owned_texts(&self.hosts))
    }
}

/// Where the member names start in the window of an ACL inode that is read:
/// from `vdi_epoch` to the end of the member table.
pub const MEMBERS_AT: usize = 56;

/// Bytes of that window.
pub const ACL_WINDOW: usize = 3896;

/// Name slot `i` of an ACL window.
pub open spec fn member_field(window: Seq<u8>, i: int) -> Seq<u8> {
    window.subrange(56 + i * 256, 56 + (i + 1) * 256)
}

/// The names in the first `k` slots that are not empty: a removal zeroes a
/// slot in place, so an empty one is a hole rather than the end of the list.
pub open spec fn member_names(window: Seq<u8>, k: nat) -> Seq<Seq<char>>
    decreases k,
{
    if k == 0 {
        seq![]
    } else {
        let name = cstr(member_field(window, k - 1));
        let rest = member_names(window, (k - 1) as nat);
        if name.len() == 0 {
            rest
        } else {
            rest.push(name)
        }
    }
}

/// An ACL object's member names and epoch, out of the window of its inode.
pub fn parse_acl_state(window: &[u8]) -> (r: AclState)
    requires
        window@.len() == ACL_WINDOW,
    ensures
        r.epoch == wire::u64_at(window@, 0),
        text::texts(r.hosts@) == member_names(window@, 15),
{
    let mut hosts: Vec<String> = Vec::new();
    assert(text::texts(hosts@) =~= member_names(window@, 0));
    for i in 0..SD_ACL_MAX_MEMBERS
        invariant
            window@.len() == 3896,
            text::texts(hosts@) == member_names(window@, i as nat),
    {
        let at: usize = MEMBERS_AT + i * SD_MAX_VDI_LEN;
        let name = read_cstr(slice_subrange(window, at, at + SD_MAX_VDI_LEN));
        assert(name@ == cstr(member_field(window@, i as int)));
        let ghost before = text::texts(hosts@);
        let chars = chars_of(name.as_str());
        if chars.len() > 0 {
            let ghost said = name@;
            hosts.push(name);
            assert(text::texts(hosts@) =~= before.push(said));
        }
    }
    AclState { hosts, epoch: read_u64(window, 0) }
}

/// One live entry of the cluster's VDI table.
#[derive(Debug, PartialEq, Eq)]
pub struct TableEntry {
    /// The VDI.
    pub info: VdiInfo,
    /// The entry is an ACL object (`SD_VDI_FLAG_ACL`), not a volume.
    pub is_acl: bool,
    /// Slots of `data_vdi_id[]` in use (`max_data_id_nr`): the object-map
    /// extent of a volume, the member count of an ACL object.
    pub max_data_id_nr: u32,
}

/// A table entry, as what is known of it.
pub struct Entry {
    /// The VDI.
    pub vdi: Vdi,
    /// ACL object.
    pub is_acl: bool,
    /// Map slots in use.
    pub max_data_id_nr: u32,
}

impl View for TableEntry {
    type V = Entry;

    open spec fn view(&self) -> Entry {
        Entry { vdi: self.info@, is_acl: self.is_acl, max_data_id_nr: self.max_data_id_nr }
    }
}

/// Whether an inode's flags mark an ACL object.
pub open spec fn flags_acl(inode: Seq<u8>) -> bool {
    wire::u32_at(inode, 592) % 2 == 1
}

/// What inode `b` of `vid` says; nothing where it has no name or no size.
pub open spec fn entry_in(vid: u32, b: Seq<u8>) -> Option<Entry> {
    let name = cstr(b.subrange(0, 256));
    let size = wire::u64_at(b, 536);
    if name.len() == 0 || size == 0 {
        None
    } else {
        Some(
            Entry {
                vdi: Vdi {
                    name,
                    tag: cstr(b.subrange(256, 512)),
                    vid,
                    size,
                    snapshot: wire::u64_at(b, 520) != 0,
                    uuid: uuid_in(b),
                    acl: wire::u32_at(b, 572),
                },
                is_acl: flags_acl(b),
                max_data_id_nr: wire::u32_at(b, 528),
            },
        )
    }
}

/// Whether the flags word marks an ACL object.
pub fn marks_acl(inode: &[u8]) -> (r: bool)
    requires
        inode@.len() >= 596,
    ensures
        r == flags_acl(inode@),
{
    read_u32(inode, INO_OFF_VDI_FLAGS) % 2 == 1
}

/// Read a live vid's inode metadata. Unnamed or zero-sized inodes are none.
pub fn parse_entry(vid: u32, inode: &[u8]) -> (r: Option<TableEntry>)
    requires
        inode@.len() >= 596,
    ensures
        match r {
            Some(e) => entry_in(vid, inode@) == Some(e@),
            None => entry_in(vid, inode@) is None,
        },
{
    let name = read_cstr(slice_subrange(inode, INO_OFF_NAME, INO_OFF_NAME + SD_MAX_VDI_LEN));
    let size: u64 = read_u64(inode, INO_OFF_VDI_SIZE);
    let chars = chars_of(name.as_str());
    if chars.len() == 0 || size == 0 {
        return None;
    }
    let tag = read_cstr(slice_subrange(inode, INO_OFF_TAG, INO_OFF_TAG + SD_MAX_VDI_TAG_LEN));
    let e = TableEntry {
        info: VdiInfo {
            name,
            tag,
            vid,
            size,
            snapshot: read_u64(inode, INO_OFF_SNAP_CTIME) != 0,
            uuid: read_uuid(inode),
            acl: read_u32(inode, INO_OFF_ACL_ID),
        },
        is_acl: marks_acl(inode),
        max_data_id_nr: read_u32(inode, INO_OFF_MAX_DATA_ID_NR),
    };
    Some(e)
}

/// The first `count` vids of an object map.
pub open spec fn map_in(b: Seq<u8>, count: nat) -> Seq<u32> {
    Seq::new(count, |i: int| wire::u32_at(b, i * 4))
}

/// The first `count` vids of an object map.
pub fn parse_map(b: &[u8], count: usize) -> (r: Vec<u32>)
    requires
        count * 4 <= b@.len(),
    ensures
        r@ == map_in(b@, count as nat),
{
    let mut r: Vec<u32> = Vec::new();
    let n: usize = b.len();
    for i in 0..count
        invariant
            count * 4 <= n == b@.len(),
            r@ == map_in(b@, i as nat),
    {
        r.push(read_u32(b, i * 4));
        assert(r@ =~= map_in(b@, (i + 1) as nat));
    }
    r
}

/// Slots of an object map that are read for a count of `max_data_id_nr`: a
/// count past the array's end is clamped rather than trusted.
pub fn clamp_count(max_data_id_nr: u32) -> (r: usize)
    ensures
        r == (if max_data_id_nr <= 0x10_0000 {
            max_data_id_nr
        } else {
            0x10_0000
        }),
{
    if max_data_id_nr as u64 <= SD_INODE_DATA_INDEX {
        max_data_id_nr as usize
    } else {
        SD_INODE_DATA_INDEX as usize
    }
}

/// The name a field of valid text was filled from is the one read back.
pub proof fn lemma_name_round_trip(name: Seq<char>, field: Seq<u8>)
    requires
        vstd::utf8::encode_utf8(name).len() <= field.len(),
        field.take(vstd::utf8::encode_utf8(name).len() as int) == vstd::utf8::encode_utf8(name),
        forall|i: int|
            0 <= i < vstd::utf8::encode_utf8(name).len() ==> vstd::utf8::encode_utf8(name)[i] != 0,
        vstd::utf8::encode_utf8(name).len() < field.len() ==> field[vstd::utf8::encode_utf8(
            name,
        ).len() as int] == 0,
    ensures
        vstd::utf8::valid_utf8(field.take(cstr_len(field) as int)),
        vstd::utf8::decode_utf8(field.take(cstr_len(field) as int)) == name,
{
    let b = vstd::utf8::encode_utf8(name);
    assert forall|i: int| 0 <= i < b.len() implies field[i] != 0 by {
        assert(field.take(b.len() as int)[i] == b[i]);
    }
    lemma_cstr_len(field, b.len() as int);
    vstd::utf8::encode_utf8_valid_utf8(name);
    vstd::utf8::encode_utf8_decode_utf8(name);
}

// ---------------------------------------------------------------------------
// What inodes say
// ---------------------------------------------------------------------------

/// An inode has an identity where any of its sixteen bytes, from 576 on, is not
/// zero, and then it is these bytes.
pub proof fn lemma_uuid_in(inode: Seq<u8>)
    requires
        inode.len() >= 592,
    ensures
        uuid_in(inode) is None <==> forall|i: int| 576 <= i < 592 ==> #[trigger] inode[i] == 0,
        uuid_in(inode) matches Some(u) ==> u.len() == 16 && forall|i: int|
            0 <= i < 16 ==> #[trigger] u[i] == inode[576 + i],
{
    let u = inode.subrange(576, 592);
    if forall|i: int| 576 <= i < 592 ==> #[trigger] inode[i] == 0 {
        assert(u =~= bytes::zeroes(16));
    }
    if u == bytes::zeroes(16) {
        assert forall|i: int| 576 <= i < 592 implies #[trigger] inode[i] == 0 by {
            assert(u[i - 576] == bytes::zeroes(16)[i - 576]);
        }
    }
}

/// Who may connect by a member list: its members and nobody else, but everybody
/// where it has none.
pub proof fn lemma_members_rule(hosts: Seq<Seq<char>>, hostnqn: Seq<char>)
    ensures
        subsystem::admitted(members_rule(hosts), hostnqn) <==> hosts.len() == 0 || exists|i: int|
            0 <= i < hosts.len() && #[trigger] hosts[i] == hostnqn,
{
    if hosts.contains(hostnqn) {
        let i = choose|i: int| 0 <= i < hosts.len() && hosts[i] == hostnqn;
        assert(hosts[i] == hostnqn);
    }
}

/// The members of an ACL object are the names in its inode's metadata, 256 bytes
/// each from byte 600 on, those of the slots that are not empty and no others;
/// its version is the number in bytes 544 to 551.
pub proof fn lemma_member_names(inode: Seq<u8>, k: nat, i: int)
    requires
        inode.len() >= 4440,
        k <= 15,
    ensures
        ({
            let window = inode.subrange(544, 4440);
            let names = member_names(window, k);
            let slot = |j: int| cstr(inode.subrange(600 + 256 * j, 600 + 256 * (j + 1)));
            &&& wire::u64_at(window, 0) == wire::u64_at(inode, 544)
            &&& 0 <= i < k && slot(i).len() > 0 ==> names.contains(slot(i))
            &&& 0 <= i < names.len() ==> names[i].len() > 0 && exists|j: int|
                0 <= j < k && #[trigger] slot(j) == names[i]
        }),
    decreases k,
{
    let window = inode.subrange(544, 4440);
    let slot = |j: int| cstr(inode.subrange(600 + 256 * j, 600 + 256 * (j + 1)));
    assert(window.subrange(0, 8) =~= inode.subrange(544, 552));
    if k > 0 {
        let m = (k - 1) as nat;
        lemma_member_names(inode, m, i);
        let rest = member_names(window, m);
        let all = member_names(window, k);
        assert(member_field(window, m as int) =~= inode.subrange(
            600 + 256 * m as int,
            600 + 256 * (m as int + 1),
        ));
        assert(cstr(member_field(window, m as int)) == slot(m as int));
        if 0 <= i < k && slot(i).len() > 0 {
            if i == m {
                assert(all[rest.len() as int] == slot(i));
            } else {
                let j = choose|j: int| 0 <= j < rest.len() && rest[j] == slot(i);
                assert(all[j] == slot(i));
            }
        }
        if 0 <= i < rest.len() {
            assert(all[i] == rest[i]);
            let j = choose|j: int| 0 <= j < m && #[trigger] slot(j) == rest[i];
            assert(slot(j) == all[i]);
        } else if i == rest.len() && i < all.len() {
            assert(slot(m as int) == all[i]);
        }
    }
}

/// What was written into an inode is what is read of it: its size at 536, the
/// time it was made a snapshot at 520, its ACL at 572, its slots in use at 528
/// and its flags at 592, of which the lowest marks an ACL object. An inode
/// without a name or a size is none.
pub proof fn lemma_entry_read_back(
    vid: u32,
    b: Seq<u8>,
    size: u64,
    snap_ctime: u64,
    acl: u32,
    max_data_id_nr: u32,
    flags: u32,
)
    requires
        b.len() >= 596,
        b.subrange(536, 544) == bytes::le(size as nat, 8),
        b.subrange(520, 528) == bytes::le(snap_ctime as nat, 8),
        b.subrange(572, 576) == bytes::le(acl as nat, 4),
        b.subrange(528, 532) == bytes::le(max_data_id_nr as nat, 4),
        b.subrange(592, 596) == bytes::le(flags as nat, 4),
    ensures
        entry_in(vid, b) is Some <==> size > 0 && cstr(b.subrange(0, 256)).len() > 0,
        entry_in(vid, b) matches Some(e) ==> {
            &&& e.vdi.name == cstr(b.subrange(0, 256))
            &&& e.vdi.tag == cstr(b.subrange(256, 512))
            &&& e.vdi.vid == vid
            &&& e.vdi.size == size
            &&& e.vdi.snapshot <==> snap_ctime != 0
            &&& e.vdi.acl == acl
            &&& e.vdi.uuid is None <==> forall|i: int| 576 <= i < 592 ==> #[trigger] b[i] == 0
            &&& e.is_acl <==> flags % 2 == 1
            &&& e.max_data_id_nr == max_data_id_nr
        },
{
    lemma_uuid_in(b);
    wire::lemma_numbers_read_back(b, 536, 0, size);
    wire::lemma_numbers_read_back(b, 520, 0, snap_ctime);
    wire::lemma_numbers_read_back(b, 572, acl, 0);
    wire::lemma_numbers_read_back(b, 528, max_data_id_nr, 0);
    wire::lemma_numbers_read_back(b, 592, flags, 0);
}

/// An object map is read as it was written, four bytes to a vid.
pub proof fn lemma_map_read_back(b: Seq<u8>, vids: Seq<u32>)
    requires
        4 * vids.len() <= b.len(),
        forall|i: int|
            0 <= i < vids.len() ==> b.subrange(4 * i, 4 * i + 4) == bytes::le(
                #[trigger] vids[i] as nat,
                4,
            ),
    ensures
        map_in(b, vids.len()) == vids,
{
    assert forall|i: int| 0 <= i < vids.len() implies #[trigger] map_in(b, vids.len())[i]
        == vids[i] by {
        wire::lemma_numbers_read_back(b, 4 * i, vids[i], 0);
        assert(b.subrange(4 * i, 4 * i + 4) == bytes::le(vids[i] as nat, 4));
    }
    assert(map_in(b, vids.len()) =~= vids);
}

} // verus!
