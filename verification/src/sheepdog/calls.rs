//! The control requests, one round trip each: what is asked, and what the
//! answer means.

use vstd::prelude::*;
use vstd::slice::slice_subrange;

use crate::addr;
use crate::addr::SocketAddr;
use crate::bytes;
use crate::bytes::{put_bytes, zero_bytes};
use crate::sheepdog::error;
use crate::sheepdog::error::CtlError;
use crate::sheepdog::inode;
use crate::sheepdog::inode::marks_acl;
use crate::sheepdog::wire;
use crate::sheepdog::wire::{
    blank_header, decode_node_addr, encode_obj_req, encode_sheep_obj_req, encode_sheep_req,
    encode_vdi_lock_req, encode_vdi_req, read_u32, resp_result, Reply, Request, LOCK_STATE_SHARED,
    NID_OFF_ADDR, NID_OFF_PORT, SD_ACL_NONE, SD_FLAG_CMD_WRITE, SD_MAX_COPIES, SD_MAX_VDI_LEN,
    SD_MAX_VDI_TAG_LEN, SD_NODE_ID_SIZE, SD_OP_EXIST, SD_OP_GET_VDI_COPIES, SD_OP_GET_VDI_INFO,
    SD_OP_READ_OBJ, SD_OP_READ_VDIS, SD_OP_REGISTER_VDI, SD_OP_UNREGISTER_VDI,
    SD_RES_BUFFER_SMALL, SD_RES_NO_OBJ, SD_RES_NO_SPACE, SD_RES_NO_TAG, SD_RES_NO_VDI,
    SD_RES_SUCCESS, SD_RES_VDI_DENIED, SD_RES_VDI_LOCKED, SD_RES_VDI_NOT_LOCKED,
    SD_VDI_BITMAP_SIZE, SD_VDI_STATE_MAX, SD_VDI_STATE_SIZE,
    VS_OFF_LOCK_STATE, VS_OFF_NR_PARTICIPANTS, VS_OFF_PARTICIPANTS, VS_OFF_PARTICIPANTS_STATE,
    VS_OFF_VID,
};
use crate::text::owned;

verus! {

/// The bytes of a text.
pub open spec fn utf8(s: Seq<char>) -> Seq<u8> {
    vstd::utf8::encode_utf8(s)
}

/// Whether `name` fits a name field: not empty, and room for a NUL.
pub open spec fn name_fits(name: Seq<char>) -> bool {
    0 < utf8(name).len() < 256
}

/// Whether `name` fits a name field.
pub fn check_name(name: &str) -> (r: bool)
    ensures
        r == name_fits(name@),
{
    let n: usize = name.as_bytes().len();
    n > 0 && n < SD_MAX_VDI_LEN
}

/// The payload that names a VDI: its name, then its tag, each in its field.
pub open spec fn name_payload(vdi: Seq<char>, tag: Option<Seq<char>>) -> Seq<u8> {
    let named = bytes::overwritten(bytes::zeroes(512), 0, utf8(vdi));
    match tag {
        Some(t) => bytes::overwritten(named, 256, utf8(t)),
        None => named,
    }
}

/// An optional text, as its characters.
pub open spec fn opt_text(t: Option<&str>) -> Option<Seq<char>> {
    match t {
        Some(s) => Some(s@),
        None => None,
    }
}

/// Look up a VDI by name (and optional snapshot tag) within ACL `acl`. `sheep`
/// matches the name only against inodes whose `acl_id` is `acl`, so the scope
/// is part of the question.
pub fn lookup_request(vdi: &str, tag: Option<&str>, acl: u32) -> (r: Result<Request, CtlError>)
    requires
        utf8(vdi@).len() <= 256,
    ensures
        match r {
            Ok(q) => {
                &&& tag matches Some(t) ==> utf8(t@).len() < 256
                &&& q.hdr@ == wire::vdi_req(
                    SD_OP_GET_VDI_INFO,
                    SD_FLAG_CMD_WRITE,
                    512,
                    0,
                    0,
                    acl,
                )
                &&& q.payload@ == name_payload(vdi@, opt_text(tag))
                &&& q.room == 0
            },
            Err(e) => e == CtlError::TagTooLong && tag is Some && utf8(tag->0@).len() >= 256,
        },
{
    let mut payload = zero_bytes(SD_MAX_VDI_LEN + SD_MAX_VDI_TAG_LEN);
    put_bytes(&mut payload, 0, vdi.as_bytes());
    match tag {
        Some(t) => {
            let b = t.as_bytes();
            if b.len() >= SD_MAX_VDI_TAG_LEN {
                return Err(CtlError::TagTooLong);
            }
            put_bytes(&mut payload, SD_MAX_VDI_LEN, b);
        },
        None => {},
    }
    let mut hdr = blank_header();
    encode_vdi_req(&mut hdr, SD_OP_GET_VDI_INFO, SD_FLAG_CMD_WRITE, 512, 0, 0, acl);
    Ok(Request { hdr, payload, room: 0 })
}

/// What the answer to a lookup under `acl` means: a vid (at 24), or a failure.
pub open spec fn lookup_answer(hdr: Seq<u8>, acl: u32) -> Result<u32, CtlError> {
    let res = wire::u32_at(hdr, 16);
    if res == SD_RES_SUCCESS {
        Ok(wire::u32_at(hdr, 24))
    } else if res == SD_RES_NO_VDI {
        Err(CtlError::NoSuchVdi)
    } else if res == SD_RES_NO_TAG {
        Err(CtlError::NoSuchTag)
    } else if res == SD_RES_VDI_LOCKED {
        Err(CtlError::Locked)
    } else if res == SD_RES_VDI_DENIED {
        Err(CtlError::Denied { acl })
    } else {
        Err(CtlError::LookupFailed { res })
    }
}

/// What the answer to a lookup means.
pub fn lookup_reply(hdr: &[u8; 48], acl: u32) -> (r: Result<u32, CtlError>)
    ensures
        r == lookup_answer(hdr@, acl),
{
    let res: u32 = resp_result(hdr);
    if res == SD_RES_SUCCESS {
        Ok(read_u32(vstd::array::array_as_slice(hdr), 24))
    } else if res == SD_RES_NO_VDI {
        Err(CtlError::NoSuchVdi)
    } else if res == SD_RES_NO_TAG {
        Err(CtlError::NoSuchTag)
    } else if res == SD_RES_VDI_LOCKED {
        Err(CtlError::Locked)
    } else if res == SD_RES_VDI_DENIED {
        // Locked under some other ACL, or named from outside the ACL it
        // belongs to: the cluster admits the name, but not to us.
        Err(CtlError::Denied { acl })
    } else {
        Err(CtlError::LookupFailed { res })
    }
}

/// Look up an ACL object by name: it belongs to no ACL itself, so it is looked
/// up unscoped.
pub fn lookup_acl_request(acl: &str) -> (r: Result<Request, CtlError>)
    ensures
        match r {
            Ok(q) => {
                &&& name_fits(acl@)
                &&& q.hdr@ == wire::vdi_req(
                    SD_OP_GET_VDI_INFO,
                    SD_FLAG_CMD_WRITE,
                    512,
                    0,
                    0,
                    SD_ACL_NONE,
                )
                &&& q.payload@ == name_payload(acl@, None)
                &&& q.room == 0
            },
            Err(e) => e == CtlError::InvalidAclName && !name_fits(acl@),
        },
{
    if !check_name(acl) {
        return Err(CtlError::InvalidAclName);
    }
    lookup_request(acl, None, SD_ACL_NONE)
}

/// Whether the inode read for the name `acl` really is an ACL object's — the
/// check that keeps an ordinary VDI that happens to share the name from being
/// mistaken for an access-control scope.
pub fn acl_meta_reply(acl: &str, reply: &Reply) -> (r: Result<(), CtlError>)
    requires
        reply.data@.len() == 596,
    ensures
        match r {
            Ok(_) => wire::u32_at(reply.hdr@, 16) == SD_RES_SUCCESS && inode::flags_acl(
                reply.data@,
            ),
            Err(CtlError::ReadFailed { res }) => res == wire::u32_at(reply.hdr@, 16) && res
                != SD_RES_SUCCESS,
            Err(CtlError::NotAnAcl { name }) => name@ == acl@ && wire::u32_at(reply.hdr@, 16)
                == SD_RES_SUCCESS && !inode::flags_acl(reply.data@),
            Err(_) => false,
        },
{
    match read_reply(&reply.hdr) {
        Err(e) => Err(e),
        Ok(()) => if marks_acl(reply.data.as_slice()) {
            Ok(())
        } else {
            Err(CtlError::NotAnAcl { name: owned(acl) })
        },
    }
}

/// Read `len` bytes of object `oid` at `offset`; what the server trims is
/// zero.
pub fn read_request(oid: u64, offset: u64, len: u32) -> (r: Request)
    ensures
        r.hdr@ == wire::obj_req(SD_OP_READ_OBJ, 0, 0, len, oid, 0, 0, offset),
        r.payload@ == Seq::<u8>::empty(),
        r.room == len,
{
    let mut hdr = blank_header();
    encode_obj_req(&mut hdr, SD_OP_READ_OBJ, 0, 0, len, oid, 0, 0, offset);
    Request { hdr, payload: Vec::new(), room: len as usize }
}

/// What the answer to a read means, beside its payload.
pub open spec fn read_answer(hdr: Seq<u8>) -> Result<(), CtlError> {
    let res = wire::u32_at(hdr, 16);
    if res == SD_RES_SUCCESS {
        Ok(())
    } else {
        Err(CtlError::ReadFailed { res })
    }
}

/// What the answer to a read means, beside its payload.
pub fn read_reply(hdr: &[u8; 48]) -> (r: Result<(), CtlError>)
    ensures
        r == read_answer(hdr@),
{
    let res: u32 = resp_result(hdr);
    if res == SD_RES_SUCCESS {
        Ok(())
    } else {
        Err(CtlError::ReadFailed { res })
    }
}

/// Take the cluster lock on the VDI named `vdi` within ACL `acl`, registering
/// `owner` as the holder.
///
/// `acl` is both the scope the name resolves in and the lock's kind — a real
/// ACL id joins the volume's participant list, [`SD_ACL_NONE`] claims a volume
/// that is in no ACL exclusively.
pub fn register_request(vdi: &str, owner: SocketAddr, acl: u32) -> (r: Result<Request, CtlError>)
    ensures
        match r {
            Ok(q) => {
                &&& name_fits(vdi@)
                &&& q.hdr@ == wire::vdi_lock_req(
                    SD_OP_REGISTER_VDI,
                    SD_FLAG_CMD_WRITE,
                    512,
                    0,
                    owner@,
                    acl,
                )
                &&& q.payload@ == name_payload(vdi@, None)
                &&& q.room == 0
            },
            Err(e) => e == CtlError::InvalidVdiName && !name_fits(vdi@),
        },
{
    if !check_name(vdi) {
        return Err(CtlError::InvalidVdiName);
    }
    let mut payload = zero_bytes(SD_MAX_VDI_LEN + SD_MAX_VDI_TAG_LEN);
    put_bytes(&mut payload, 0, vdi.as_bytes());
    let mut hdr = blank_header();
    encode_vdi_lock_req(&mut hdr, SD_OP_REGISTER_VDI, SD_FLAG_CMD_WRITE, 512, 0, owner, acl);
    Ok(Request { hdr, payload, room: 0 })
}

/// Whether `r` is what result `res` of a registration means.
pub open spec fn register_answer(
    r: Result<(), CtlError>,
    res: u32,
    vdi: Seq<char>,
    acl: u32,
) -> bool {
    if res == SD_RES_SUCCESS {
        r is Ok
    } else if res == SD_RES_NO_VDI {
        r matches Err(CtlError::NoVdiNamed { vdi: v, acl: a }) && v@ == vdi && a == acl
    } else if res == SD_RES_VDI_LOCKED {
        r matches Err(CtlError::VdiLocked { vdi: v }) && v@ == vdi
    } else if res == SD_RES_VDI_DENIED {
        r matches Err(CtlError::VdiDenied { vdi: v, acl: a }) && v@ == vdi && a == acl
    } else if res == SD_RES_NO_SPACE {
        r matches Err(CtlError::TooManyHolders { vdi: v }) && v@ == vdi
    } else {
        r == Err::<(), CtlError>(CtlError::RegisterFailed { res })
    }
}

/// What the answer to a registration means.
pub fn register_reply(hdr: &[u8; 48], vdi: &str, acl: u32) -> (r: Result<(), CtlError>)
    ensures
        register_answer(r, wire::u32_at(hdr@, 16), vdi@, acl),
{
    let res: u32 = resp_result(hdr);
    if res == SD_RES_SUCCESS {
        Ok(())
    } else if res == SD_RES_NO_VDI {
        Err(CtlError::NoVdiNamed { vdi: owned(vdi), acl })
    } else if res == SD_RES_VDI_LOCKED {
        // Held the other way round: a shared holder where we want it to
        // ourselves, or an exclusive one (a QEMU guest) where we want to join.
        Err(CtlError::VdiLocked { vdi: owned(vdi) })
    } else if res == SD_RES_VDI_DENIED {
        // Named from outside the ACL its inode records, or locked under a
        // different one: the cluster admits the name, but not to us.
        Err(CtlError::VdiDenied { vdi: owned(vdi), acl })
    } else if res == SD_RES_NO_SPACE {
        // `sheep` keeps at most SD_MAX_COPIES participants per VDI.
        Err(CtlError::TooManyHolders { vdi: owned(vdi) })
    } else {
        Err(CtlError::RegisterFailed { res })
    }
}

/// Give a registration back — the inverse of [`register_request`], naming the
/// same owner and ACL.
pub fn release_request(vid: u32, owner: SocketAddr, acl: u32) -> (r: Request)
    ensures
        r.hdr@ == wire::vdi_lock_req(SD_OP_UNREGISTER_VDI, 0, 0, vid, owner@, acl),
        r.payload@ == Seq::<u8>::empty(),
        r.room == 0,
{
    let mut hdr = blank_header();
    encode_vdi_lock_req(&mut hdr, SD_OP_UNREGISTER_VDI, 0, 0, vid, owner, acl);
    Request { hdr, payload: Vec::new(), room: 0 }
}

/// Whether the registration is gone now. `VDI_NOT_LOCKED`: the cluster dropped
/// this holder on its own, and the postcondition holds.
pub fn release_reply(hdr: &[u8; 48]) -> (r: bool)
    ensures
        r == (wire::u32_at(hdr@, 16) == SD_RES_SUCCESS || wire::u32_at(hdr@, 16)
            == SD_RES_VDI_NOT_LOCKED),
{
    let res: u32 = resp_result(hdr);
    res == SD_RES_SUCCESS || res == SD_RES_VDI_NOT_LOCKED
}

/// Read the cluster's VDI bitmap (one bit per vid, LSB-first within each
/// byte).
pub fn bitmap_request() -> (r: Request)
    ensures
        r.hdr@ == wire::vdi_req(SD_OP_READ_VDIS, 0, 0x20_0000, 0, 0, 0),
        r.payload@ == Seq::<u8>::empty(),
        r.room == SD_VDI_BITMAP_SIZE,
{
    let mut hdr = blank_header();
    encode_vdi_req(&mut hdr, SD_OP_READ_VDIS, 0, 0x20_0000, 0, 0, 0);
    Request { hdr, payload: Vec::new(), room: SD_VDI_BITMAP_SIZE }
}

/// What the answer to a bitmap read means, beside its payload.
pub open spec fn bitmap_answer(hdr: Seq<u8>) -> Result<(), CtlError> {
    let res = wire::u32_at(hdr, 16);
    if res == SD_RES_SUCCESS {
        Ok(())
    } else {
        Err(CtlError::BitmapFailed { res })
    }
}

/// What the answer to a bitmap read means, beside its payload.
pub fn bitmap_reply(hdr: &[u8; 48]) -> (r: Result<(), CtlError>)
    ensures
        r == bitmap_answer(hdr@),
{
    let res: u32 = resp_result(hdr);
    if res == SD_RES_SUCCESS {
        Ok(())
    } else {
        Err(CtlError::BitmapFailed { res })
    }
}

/// Whether the gateway stores object `oid` itself.
pub fn exist_request(oid: u64) -> (r: Request)
    ensures
        r.hdr@ == wire::sheep_obj_req(SD_OP_EXIST, oid),
        r.payload@ == Seq::<u8>::empty(),
        r.room == 0,
{
    let mut hdr = blank_header();
    encode_sheep_obj_req(&mut hdr, SD_OP_EXIST, oid);
    Request { hdr, payload: Vec::new(), room: 0 }
}

/// What the answer to the question means: `NO_OBJ` is a normal answer.
pub open spec fn exist_answer(hdr: Seq<u8>, oid: u64) -> Result<bool, CtlError> {
    let res = wire::u32_at(hdr, 16);
    if res == SD_RES_SUCCESS {
        Ok(true)
    } else if res == SD_RES_NO_OBJ {
        Ok(false)
    } else {
        Err(CtlError::ExistFailed { oid, res })
    }
}

/// What the answer to the question means.
pub fn exist_reply(hdr: &[u8; 48], oid: u64) -> (r: Result<bool, CtlError>)
    ensures
        r == exist_answer(hdr@, oid),
{
    let res: u32 = resp_result(hdr);
    if res == SD_RES_SUCCESS {
        Ok(true)
    } else if res == SD_RES_NO_OBJ {
        Ok(false)
    } else {
        Err(CtlError::ExistFailed { oid, res })
    }
}

// ---------------------------------------------------------------------------
// VDI state table
// ---------------------------------------------------------------------------

/// How far the read of the VDI state table has come.
#[derive(Debug, PartialEq, Eq)]
pub enum StatesStep {
    /// Ask again, for this many records.
    Ask(usize),
    /// The table: a whole number of records.
    Table(Vec<u8>),
}

/// Ask for a table of up to `records` records.
pub fn states_request(records: usize) -> (r: Request)
    requires
        records <= SD_VDI_STATE_MAX,
        records * 1432 <= usize::MAX,
    ensures
        r.hdr@ == wire::sheep_req(
            SD_OP_GET_VDI_COPIES,
            (records * 1432 % 0x1_0000_0000) as u32,
        ),
        r.payload@ == Seq::<u8>::empty(),
        r.room == records * 1432,
{
    let room: usize = records * SD_VDI_STATE_SIZE;
    let mut hdr = blank_header();
    encode_sheep_req(&mut hdr, SD_OP_GET_VDI_COPIES, (room as u64 % 0x1_0000_0000) as u32);
    Request { hdr, payload: Vec::new(), room }
}

/// What the answer to a request for `records` records means: the table, a
/// retry with twice the room — the reply is sized by the number of VDIs the
/// cluster holds and there is no way to ask for the count first —, or a
/// failure.
pub fn states_reply(records: usize, reply: Reply) -> (r: Result<StatesStep, CtlError>)
    requires
        records <= SD_VDI_STATE_MAX,
        reply.len <= reply.data@.len(),
    ensures
        ({
            let res = wire::u32_at(reply.hdr@, 16);
            match r {
                Ok(StatesStep::Table(t)) => res == SD_RES_SUCCESS && reply.len % 1432 == 0 && t@
                    == reply.data@.take(reply.len as int),
                Ok(StatesStep::Ask(n)) => res == SD_RES_BUFFER_SMALL && n == records * 2 && n
                    <= SD_VDI_STATE_MAX,
                Err(CtlError::StatesRagged { len }) => res == SD_RES_SUCCESS && reply.len % 1432
                    != 0 && len == reply.len,
                Err(CtlError::StatesEndless) => res == SD_RES_BUFFER_SMALL && records * 2
                    > SD_VDI_STATE_MAX,
                Err(CtlError::StatesFailed { res: f }) => f == res && res != SD_RES_SUCCESS && res
                    != SD_RES_BUFFER_SMALL,
                Err(_) => false,
            }
        }),
{
    let res: u32 = resp_result(&reply.hdr);
    if res == SD_RES_SUCCESS {
        if reply.len % SD_VDI_STATE_SIZE != 0 {
            return Err(CtlError::StatesRagged { len: reply.len });
        }
        let mut table = reply.data;
        table.truncate(reply.len);
        assert(table@ =~= reply.data@.take(reply.len as int));
        Ok(StatesStep::Table(table))
    } else if res == SD_RES_BUFFER_SMALL {
        if records * 2 <= SD_VDI_STATE_MAX {
            Ok(StatesStep::Ask(records * 2))
        } else {
            Err(CtlError::StatesEndless)
        }
    } else {
        Err(CtlError::StatesFailed { res })
    }
}

/// One holder of a VDI's shared cluster lock: a target serving that volume, as
/// the cluster records it.
#[derive(Debug, Clone, Copy, PartialEq, Eq)]
pub struct VdiHolder {
    /// The address the holder registered itself under: what a discovery-log
    /// entry advertises (`traddr` + `trsvcid`).
    pub addr: SocketAddr,
    /// The holder's slot in the VDI's participant list: unique among the
    /// holders of *this* volume, and stable for as long as it stays registered
    /// — `sheep` clears a departing holder's slot and hands the hole to the
    /// next joiner rather than compacting the array.
    pub index: u16,
    /// Registrations this holder currently has. One per open, so normally one.
    pub registrations: u32,
}

/// A holder, as what the record says.
pub struct Holder {
    /// The endpoint.
    pub addr: addr::Endpoint,
    /// The slot.
    pub index: u16,
    /// The registrations.
    pub registrations: u32,
}

impl View for VdiHolder {
    type V = Holder;

    open spec fn view(&self) -> Holder {
        Holder { addr: self.addr@, index: self.index, registrations: self.registrations }
    }
}

/// The holders of `v`.
pub open spec fn holders(v: Seq<VdiHolder>) -> Seq<Holder> {
    Seq::new(v.len(), |i: int| v[i]@)
}

/// Slots of a record that are looked at: the wire's count, never past the
/// array.
pub open spec fn slots_used(vs: Seq<u8>) -> nat {
    let n = wire::u32_at(vs, 64);
    if n <= 31 {
        n as nat
    } else {
        31
    }
}

/// Slot `i` of a record as a holder. The state word packs the shared-lock
/// state in the low byte and the owner's registration count above it; a
/// `sheep` predating the count reports zero there, which is the one
/// registration it means.
pub open spec fn holder_at(vs: Seq<u8>, i: int) -> Holder {
    let state = wire::u32_at(vs, 68 + i * 4);
    let nid = 192 + i * 40;
    Holder {
        addr: addr::Endpoint {
            ip: wire::addr_node(vs.subrange(nid, nid + 16)),
            port: bytes::le_value(vs.subrange(nid + 16, nid + 18)) as u16,
        },
        index: i as u16,
        registrations: if state / 0x100 == 0 {
            1
        } else {
            state / 0x100
        },
    }
}

/// The holders in the first `k` slots. A zero state word is a slot a holder
/// left behind: the states start at 1.
pub open spec fn holders_in(vs: Seq<u8>, k: nat) -> Seq<Holder>
    decreases k,
{
    if k == 0 {
        seq![]
    } else {
        let rest = holders_in(vs, (k - 1) as nat);
        if wire::u32_at(vs, 68 + (k - 1) * 4) == 0 {
            rest
        } else {
            rest.push(holder_at(vs, k - 1))
        }
    }
}

/// The participant list of a record: empty unless the lock is shared.
pub open spec fn participants(vs: Seq<u8>) -> Seq<Holder> {
    if wire::u32_at(vs, 20) != LOCK_STATE_SHARED {
        seq![]
    } else {
        holders_in(vs, slots_used(vs))
    }
}

/// The participant list of one `vdi_state` record.
pub fn parse_holders(vs: &[u8]) -> (r: Vec<VdiHolder>)
    requires
        vs@.len() == SD_VDI_STATE_SIZE,
    ensures
        holders(r@) == participants(vs@),
{
    let mut r: Vec<VdiHolder> = Vec::new();
    assert(holders(r@) =~= seq![]);
    if read_u32(vs, VS_OFF_LOCK_STATE) != LOCK_STATE_SHARED {
        return r;
    }
    let said: u32 = read_u32(vs, VS_OFF_NR_PARTICIPANTS);
    let count: usize = if said as u64 <= SD_MAX_COPIES as u64 {
        said as usize
    } else {
        SD_MAX_COPIES
    };
    for i in 0..count
        invariant
            vs@.len() == 1432,
            count <= 31,
            holders(r@) == holders_in(vs@, i as nat),
    {
        let state: u32 = read_u32(vs, VS_OFF_PARTICIPANTS_STATE + i * 4);
        if state != 0 {
            let nid: usize = VS_OFF_PARTICIPANTS + i * SD_NODE_ID_SIZE;
            let mut a = [0u8; 16];
            for j in 0..16usize
                invariant
                    vs@.len() == 1432,
                    nid == 192 + i * 40,
                    i < 31,
                    forall|k: int| 0 <= k < j ==> a@[k] == vs@[nid + k],
            {
                a[j] = vs[nid + NID_OFF_ADDR + j];
            }
            proof {
                assert(a@ =~= vs@.subrange(nid as int, nid + 16));
                bytes::lemma_pow256();
            }
            let port: u16 = bytes::read_le(vs, nid + NID_OFF_PORT, 2) as u16;
            let count_part: u32 = state / 0x100;
            let registrations: u32 = if count_part == 0 {
                1
            } else {
                count_part
            };
            let h = VdiHolder {
                addr: SocketAddr::new(decode_node_addr(&a), port),
                index: i as u16,
                registrations,
            };
            let ghost before = holders(r@);
            r.push(h);
            assert(holders(r@) =~= before.push(h@));
            assert(h@ == holder_at(vs@, i as int));
        }
    }
    r
}

/// Record `i` of a state table.
pub open spec fn record(table: Seq<u8>, i: int) -> Seq<u8> {
    table.subrange(i * 1432, (i + 1) * 1432)
}

/// The participants of `vid` in the records of `table` from `i` on: those of
/// the first record that is its.
pub open spec fn participants_of(table: Seq<u8>, vid: u32, i: int) -> Seq<Holder>
    decreases table.len() - i * 1432,
{
    if i < 0 || (i + 1) * 1432 > table.len() {
        seq![]
    } else if wire::u32_at(record(table, i), 0) == vid {
        participants(record(table, i))
    } else {
        participants_of(table, vid, i + 1)
    }
}

/// The holders of the shared cluster lock on each of `vids`, in participant
/// order — every target that has registered itself as serving that volume.
/// One list per requested vid, in the order asked.
///
/// A vid's list is empty when the volume is unlocked (nobody serves it), held
/// exclusively, or absent from the table altogether.
pub fn vdi_holders(table: &[u8], vids: &[u32]) -> (r: Vec<Vec<VdiHolder>>)
    ensures
        r@.len() == vids@.len(),
        forall|k: int|
            0 <= k < vids@.len() ==> holders((#[trigger] r@[k])@) == participants_of(
                table@,
                vids@[k],
                0,
            ),
{
    let mut r: Vec<Vec<VdiHolder>> = Vec::new();
    let n: usize = vids.len();
    for k in 0..n
        invariant
            n == vids@.len(),
            r@.len() == k,
            forall|j: int|
                0 <= j < k ==> holders((#[trigger] r@[j])@) == participants_of(
                    table@,
                    vids@[j],
                    0,
                ),
    {
        let list = holders_of(table, vids[k]);
        r.push(list);
    }
    r
}

fn holders_of(table: &[u8], vid: u32) -> (r: Vec<VdiHolder>)
    ensures
        holders(r@) == participants_of(table@, vid, 0),
{
    let n: usize = table.len();
    let count: usize = n / SD_VDI_STATE_SIZE;
    let mut i: usize = 0;
    while i < count
        invariant
            n == table@.len(),
            count == n / 1432,
            i <= count,
            participants_of(table@, vid, 0) == participants_of(table@, vid, i as int),
        decreases count - i,
    {
        let at: usize = i * SD_VDI_STATE_SIZE;
        let vs = slice_subrange(table, at, at + SD_VDI_STATE_SIZE);
        assert(vs@ == record(table@, i as int));
        if read_u32(vs, VS_OFF_VID) == vid {
            return parse_holders(vs);
        }
        i = i + 1;
    }
    let r: Vec<VdiHolder> = Vec::new();
    assert(holders(r@) =~= seq![]);
    r
}

/// A holder that left is a hole, not a path, and moves nobody: each slot in
/// use is reported under its own number, in order.
pub proof fn lemma_slots_keep_their_number(vs: Seq<u8>, k: nat)
    requires
        k <= 31,
    ensures
        holders_in(vs, k).len() <= k,
        forall|i: int|
            0 <= i < holders_in(vs, k).len() ==> (#[trigger] holders_in(vs, k)[i]).index < k
                && holders_in(vs, k)[i] == holder_at(vs, holders_in(vs, k)[i].index as int),
        forall|i: int, j: int|
            0 <= i < j < holders_in(vs, k).len() ==> (#[trigger] holders_in(vs, k)[i]).index < (
            #[trigger] holders_in(vs, k)[j]).index,
        forall|s: int|
            0 <= s < k && #[trigger] wire::u32_at(vs, 68 + s * 4) != 0 ==> holders_in(
                vs,
                k,
            ).contains(holder_at(vs, s)),
    decreases k,
{
    if k > 0 {
        let rest = holders_in(vs, (k - 1) as nat);
        let all = holders_in(vs, k);
        lemma_slots_keep_their_number(vs, (k - 1) as nat);
        assert forall|s: int| 0 <= s < k && #[trigger] wire::u32_at(vs, 68 + s * 4) != 0 implies
            all.contains(holder_at(vs, s)) by {
            if s < k - 1 {
                assert(rest.contains(holder_at(vs, s)));
                let i = choose|i: int| 0 <= i < rest.len() && rest[i] == holder_at(vs, s);
                assert(all[i] == holder_at(vs, s));
            } else {
                assert(all[rest.len() as int] == holder_at(vs, s));
            }
        }
    }
}

// ---------------------------------------------------------------------------
// What is said and what is meant
// ---------------------------------------------------------------------------

/// A VDI is named by its name at the start of the payload and its tag from byte
/// 256 on, with nothing but zeroes behind either.
pub proof fn lemma_name_payload(vdi: Seq<char>, tag: Option<Seq<char>>)
    requires
        utf8(vdi).len() <= 256,
        tag matches Some(t) ==> utf8(t).len() < 256,
    ensures
        ({
            let p = name_payload(vdi, tag);
            let v = utf8(vdi).len() as int;
            &&& p.len() == 512
            &&& p.take(v) == utf8(vdi)
            &&& forall|i: int| v <= i < 256 ==> #[trigger] p[i] == 0
            &&& match tag {
                Some(t) => {
                    let n = utf8(t).len() as int;
                    &&& p.subrange(256, 256 + n) == utf8(t)
                    &&& forall|i: int| 256 + n <= i < 512 ==> #[trigger] p[i] == 0
                },
                None => forall|i: int| 256 <= i < 512 ==> #[trigger] p[i] == 0,
            }
        }),
{
    let p = name_payload(vdi, tag);
    assert(p.take(utf8(vdi).len() as int) =~= utf8(vdi));
    if let Some(t) = tag {
        assert(p.subrange(256, 256 + utf8(t).len() as int) =~= utf8(t));
    }
}

/// A lookup succeeds exactly where the cluster says 0, with the id in bytes 24 to
/// 27 of its answer; every way it says no has an error of its own, and the rest
/// goes by its number.
pub proof fn lemma_lookup_answers(hdr: Seq<u8>, acl: u32)
    ensures
        ({
            let res = wire::u32_at(hdr, 16);
            let r = lookup_answer(hdr, acl);
            &&& r is Ok <==> res == 0
            &&& r matches Ok(vid) ==> vid == wire::u32_at(hdr, 24)
            &&& r == Err::<u32, CtlError>(CtlError::NoSuchVdi) <==> res == 0x08
            &&& r == Err::<u32, CtlError>(CtlError::NoSuchTag) <==> res == 0x0e
            &&& r == Err::<u32, CtlError>(CtlError::Locked) <==> res == 0x07
            &&& r == Err::<u32, CtlError>(CtlError::Denied { acl }) <==> res == 0x1e
            &&& res != 0 && res != 0x08 && res != 0x0e && res != 0x07 && res != 0x1e ==> r == Err::<
                u32,
                CtlError,
            >(CtlError::LookupFailed { res })
        }),
{
}

/// A registration is taken exactly where the cluster says 0; each refusal says of
/// which VDI it is, and why.
pub proof fn lemma_register_answers(
    r: Result<(), CtlError>,
    res: u32,
    vdi: Seq<char>,
    acl: u32,
)
    requires
        register_answer(r, res, vdi, acl),
    ensures
        r is Ok <==> res == 0,
        r is Err && r->Err_0 is NoVdiNamed <==> res == 0x08,
        r is Err && r->Err_0 is VdiLocked <==> res == 0x07,
        r is Err && r->Err_0 is VdiDenied <==> res == 0x1e,
        r is Err && r->Err_0 is TooManyHolders <==> res == 0x15,
        r matches Err(CtlError::NoVdiNamed { vdi: v, acl: a }) ==> v@ == vdi && a == acl,
        r matches Err(CtlError::VdiLocked { vdi: v }) ==> v@ == vdi,
        r matches Err(CtlError::VdiDenied { vdi: v, acl: a }) ==> v@ == vdi && a == acl,
        r matches Err(CtlError::TooManyHolders { vdi: v }) ==> v@ == vdi,
        res != 0 && res != 0x08 && res != 0x07 && res != 0x1e && res != 0x15 ==> r == Err::<
            (),
            CtlError,
        >(CtlError::RegisterFailed { res }),
{
}

/// Reads, of objects and of the bitmap, succeed exactly where the cluster says 0;
/// an object is there where it says 0 and is not where it says 2.
pub proof fn lemma_read_answers(hdr: Seq<u8>, oid: u64)
    ensures
        ({
            let res = wire::u32_at(hdr, 16);
            &&& read_answer(hdr) is Ok <==> res == 0
            &&& res != 0 ==> read_answer(hdr) == Err::<(), CtlError>(CtlError::ReadFailed { res })
            &&& bitmap_answer(hdr) is Ok <==> res == 0
            &&& res != 0 ==> bitmap_answer(hdr) == Err::<(), CtlError>(
                CtlError::BitmapFailed { res },
            )
            &&& exist_answer(hdr, oid) == Ok::<bool, CtlError>(true) <==> res == 0
            &&& exist_answer(hdr, oid) == Ok::<bool, CtlError>(false) <==> res == 2
            &&& res != 0 && res != 2 ==> exist_answer(hdr, oid) == Err::<bool, CtlError>(
                CtlError::ExistFailed { oid, res },
            )
        }),
{
}

/// A holder is read as it was recorded: where slot `i` has its address and port,
/// and the number of its registrations above its state, so does the list. A
/// holder without a number has one registration.
pub proof fn lemma_holder_read_back(
    vs: Seq<u8>,
    i: int,
    e: addr::Endpoint,
    state: u8,
    registrations: u32,
)
    requires
        vs.len() == 1432,
        0 <= i < 31,
        e.ip.octets.len() == if e.ip.v4 {
            4nat
        } else {
            16nat
        },
        e.ip.v4 ==> e.ip.octets[0] != 0,
        !e.ip.v4 ==> e.ip.octets[12] == 0 || e.ip.octets.take(12) != bytes::zeroes(12),
        registrations < 0x100_0000,
        vs.subrange(68 + 4 * i, 72 + 4 * i) == bytes::le((state + 256 * registrations) as nat, 4),
        vs.subrange(192 + 40 * i, 208 + 40 * i) == wire::node_addr(e.ip),
        vs.subrange(208 + 40 * i, 210 + 40 * i) == bytes::le(e.port as nat, 2),
    ensures
        holder_at(vs, i).addr == e,
        holder_at(vs, i).index == i,
        holder_at(vs, i).registrations == (if registrations == 0 {
            1
        } else {
            registrations
        }),
{
    bytes::lemma_pow256();
    wire::lemma_node_addr_round_trip(e.ip);
    bytes::lemma_le(e.port as nat, 2);
    wire::lemma_numbers_read_back(vs, 68 + 4 * i, (state + 256 * registrations) as u32, 0);
    assert(vs.subrange(68 + i * 4, 68 + i * 4 + 4) == vs.subrange(68 + 4 * i, 72 + 4 * i));
    assert(vs.subrange(192 + i * 40, 192 + i * 40 + 16) == vs.subrange(192 + 40 * i, 208 + 40 * i));
    assert(vs.subrange(192 + i * 40 + 16, 192 + i * 40 + 18) == vs.subrange(
        208 + 40 * i,
        210 + 40 * i,
    ));
}

/// Only a volume that is locked shared has participants, and of no more than 31
/// slots: of those whose state is not zero, and of no others.
pub proof fn lemma_participants(vs: Seq<u8>, s: int)
    ensures
        wire::u32_at(vs, 20) != 3 ==> participants(vs).len() == 0,
        wire::u32_at(vs, 20) == 3 && 0 <= s < 31 && s < wire::u32_at(vs, 64) && wire::u32_at(
            vs,
            68 + s * 4,
        ) != 0 ==> participants(vs).contains(holder_at(vs, s)),
        forall|i: int|
            0 <= i < participants(vs).len() ==> {
                let at = (#[trigger] participants(vs)[i]).index as int;
                &&& at < 31
                &&& at < wire::u32_at(vs, 64)
                &&& wire::u32_at(vs, 68 + at * 4) != 0
                &&& participants(vs)[i] == holder_at(vs, at)
            },
{
    lemma_slots_keep_their_number(vs, slots_used(vs));
    lemma_none_of_holes(vs, slots_used(vs));
    if wire::u32_at(vs, 20) == 3 && 0 <= s < 31 && s < wire::u32_at(vs, 64) {
        assert(s < slots_used(vs));
        let state = wire::u32_at(vs, 68 + s * 4);
    }
}

proof fn lemma_none_of_holes(vs: Seq<u8>, k: nat)
    requires
        k <= 31,
    ensures
        forall|i: int|
            0 <= i < holders_in(vs, k).len() ==> wire::u32_at(
                vs,
                68 + (#[trigger] holders_in(vs, k)[i]).index * 4,
            ) != 0,
    decreases k,
{
    if k > 0 {
        lemma_none_of_holes(vs, (k - 1) as nat);
        let rest = holders_in(vs, (k - 1) as nat);
        let all = holders_in(vs, k);
        assert forall|i: int| 0 <= i < all.len() implies wire::u32_at(
            vs,
            68 + (#[trigger] all[i]).index * 4,
        ) != 0 by {
            if i < rest.len() {
                assert(all[i] == rest[i]);
            } else {
                assert(all[i].index == k - 1);
            }
        }
    }
}

/// The holders of a volume are those of the first record that is its own; a
/// volume without a record has none.
pub proof fn lemma_participants_of(table: Seq<u8>, vid: u32, i: int)
    requires
        0 <= i,
        forall|j: int|
            0 <= j < i ==> wire::u32_at(#[trigger] record(table, j), 0) != vid && 1432 * (j + 1)
                <= table.len(),
        1432 * (i + 1) <= table.len() ==> wire::u32_at(record(table, i), 0) == vid,
    ensures
        participants_of(table, vid, 0) == (if 1432 * (i + 1) <= table.len() {
            participants(table.subrange(1432 * i, 1432 * (i + 1)))
        } else {
            Seq::<Holder>::empty()
        }),
{
    lemma_skip_records(table, vid, 0, i);
    assert(table.subrange(1432 * i, 1432 * (i + 1)) == record(table, i));
}

proof fn lemma_skip_records(table: Seq<u8>, vid: u32, k: int, i: int)
    requires
        0 <= k <= i,
        forall|j: int|
            0 <= j < i ==> wire::u32_at(#[trigger] record(table, j), 0) != vid && 1432 * (j + 1)
                <= table.len(),
    ensures
        participants_of(table, vid, k) == participants_of(table, vid, i),
    decreases i - k,
{
    if k < i {
        assert(wire::u32_at(record(table, k), 0) != vid);
        lemma_skip_records(table, vid, k + 1, i);
    }
}

/// What a cluster's answers are to a caller: a name that is not there is not
/// found, a lock held by somebody else is a busy resource, a name that belongs to
/// another ACL is denied, a full list of holders is over quota.
pub proof fn lemma_answer_kinds(hdr: Seq<u8>, acl: u32, r: Result<(), CtlError>, vdi: Seq<char>)
    requires
        register_answer(r, wire::u32_at(hdr, 16), vdi, acl),
    ensures
        ({
            let res = wire::u32_at(hdr, 16);
            let found = lookup_answer(hdr, acl);
            &&& res == 0x08 ==> error::kind_of(found->Err_0) is NotFound && error::kind_of(
                r->Err_0,
            ) is NotFound
            &&& res == 0x0e ==> error::kind_of(found->Err_0) is NotFound
            &&& res == 0x07 ==> error::kind_of(found->Err_0) is ResourceBusy && error::kind_of(
                r->Err_0,
            ) is ResourceBusy
            &&& res == 0x1e ==> error::kind_of(found->Err_0) is PermissionDenied && error::kind_of(
                r->Err_0,
            ) is PermissionDenied
            &&& res == 0x15 ==> error::kind_of(found->Err_0) is Other && error::kind_of(r->Err_0)
                is QuotaExceeded
        }),
{
}

} // verus!
