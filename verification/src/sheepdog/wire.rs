//! The wire format: constants, request headers, response headers.

use vstd::prelude::*;

use crate::addr;
use crate::addr::{IpAddr, SocketAddr};
use crate::backend::BackendError;
use crate::bytes;
use crate::bytes::{push_le, read_le, zero_bytes};

verus! {

/// Protocol version of the client request family.
pub const SD_PROTO_VER: u8 = 0x02;

/// The version byte of the sheep-internal request family (every opcode
/// `>= 0x80`, e.g. `GET_VDI_COPIES`).
pub const SD_SHEEP_PROTO_VER: u8 = 0x0a;

/// Default `sheep` client port.
pub const SD_LISTEN_PORT: u16 = 7000;

/// Allocate an object and write it.
pub const SD_OP_CREATE_AND_WRITE_OBJ: u8 = 0x01;

/// Read an object.
pub const SD_OP_READ_OBJ: u8 = 0x02;

/// Write an object that is there.
pub const SD_OP_WRITE_OBJ: u8 = 0x03;

/// Deallocate an object.
pub const SD_OP_DISCARD_OBJ: u8 = 0x05;

/// Look a VDI up by name.
pub const SD_OP_GET_VDI_INFO: u8 = 0x14;

/// Read the VDI bitmap.
pub const SD_OP_READ_VDIS: u8 = 0x15;

/// Take a VDI's lock for an owner the client names.
pub const SD_OP_REGISTER_VDI: u8 = 0x19;

/// Give it back.
pub const SD_OP_UNREGISTER_VDI: u8 = 0x1A;

/// Read the VDI state table.
pub const SD_OP_GET_VDI_COPIES: u8 = 0xAB;

/// "Do *you* store this object?", answered by the gateway we are connected to
/// out of its own store and never forwarded.
pub const SD_OP_EXIST: u8 = 0xBD;

/// The ACL id of a VDI belonging to no ACL, and the exclusive (single-holder)
/// VDI lock such an open takes. Any non-zero ACL id is a real ACL object's
/// vid, and locks that VDI *shared* among the holders naming that same ACL.
pub const SD_ACL_NONE: u32 = 0;

/// The inode `vdi_flags` bit marking a VDI as an ACL object rather than a
/// volume.
pub const SD_VDI_FLAG_ACL: u32 = 0x0000_0001;

/// The request carries a payload to the cluster.
pub const SD_FLAG_CMD_WRITE: u16 = 0x01;

/// Copy the object named first.
pub const SD_FLAG_CMD_COW: u16 = 0x02;

/// Bypass the object cache.
pub const SD_FLAG_CMD_DIRECT: u16 = 0x08;

/// Success.
pub const SD_RES_SUCCESS: u32 = 0x00;

/// No such object.
pub const SD_RES_NO_OBJ: u32 = 0x02;

/// The VDI is locked.
pub const SD_RES_VDI_LOCKED: u32 = 0x07;

/// No such VDI.
pub const SD_RES_NO_VDI: u32 = 0x08;

/// No such snapshot tag.
pub const SD_RES_NO_TAG: u32 = 0x0E;

/// The VDI is not locked.
pub const SD_RES_VDI_NOT_LOCKED: u32 = 0x10;

/// No space left.
pub const SD_RES_NO_SPACE: u32 = 0x15;

/// The object is read-only.
pub const SD_RES_READONLY: u32 = 0x1A;

/// The VDI is not to be had under that ACL.
pub const SD_RES_VDI_DENIED: u32 = 0x1E;

/// The reply does not fit the buffer offered.
pub const SD_RES_BUFFER_SMALL: u32 = 0x88;

/// The bit that tells an inode's object id.
pub const VDI_BIT: u64 = 0x8000_0000_0000_0000;

/// Bytes of a VDI name field.
pub const SD_MAX_VDI_LEN: usize = 256;

/// Bytes of a snapshot tag field.
pub const SD_MAX_VDI_TAG_LEN: usize = 256;

/// Vids in the cluster-wide VDI bitmap (one bit each).
pub const SD_NR_VDIS: u32 = 0x100_0000;

/// Bytes of that bitmap, the `READ_VDIS` payload size.
pub const SD_VDI_BITMAP_SIZE: usize = 0x20_0000;

/// Fixed request/response header size.
pub const SD_HDR_SIZE: usize = 48;

/// Where the object map starts in an inode.
pub const SD_INODE_HEADER_SIZE: u64 = 4664;

/// Bytes of the inode holding its named fields: all that is ever read outside
/// the object map.
pub const SD_INODE_META_SIZE: usize = 596;

/// Entries in `data_vdi_id[]` (max 4 TiB at 4 MiB).
pub const SD_INODE_DATA_INDEX: u64 = 0x10_0000;

/// Inode offset: name.
pub const INO_OFF_NAME: usize = 0;

/// Inode offset: tag.
pub const INO_OFF_TAG: usize = 256;

/// Inode offset: when it was made a snapshot; 0 for a head.
pub const INO_OFF_SNAP_CTIME: usize = 520;

/// Inode offset: slots of the object map in use.
pub const INO_OFF_MAX_DATA_ID_NR: usize = 528;

/// Inode offset: volume size.
pub const INO_OFF_VDI_SIZE: usize = 536;

/// Inode offset: version counter.
pub const INO_OFF_VDI_EPOCH: usize = 544;

/// Inode offset: replication factor.
pub const INO_OFF_NR_COPIES: usize = 554;

/// Inode offset: log2 of the object size.
pub const INO_OFF_BLOCK_SIZE_SHIFT: usize = 555;

/// Inode offset: the ACL the VDI belongs to.
pub const INO_OFF_ACL_ID: usize = 572;

/// Inode offset: uuid.
pub const INO_OFF_UUID: usize = 576;

/// Inode offset: flags.
pub const INO_OFF_VDI_FLAGS: usize = 592;

/// Inode offset: metadata area.
pub const INO_OFF_METADATA: usize = 600;

/// Bytes of the inode's `uuid[16]`.
pub const SD_UUID_LEN: usize = 16;

/// Bytes of the inode header's `metadata[]` area, which on an ACL object holds
/// the member-name table.
pub const SD_INODE_METADATA_SIZE: usize = 4064;

/// Member names an ACL object's `metadata[]` can hold: fixed-width
/// [`SD_MAX_VDI_LEN`] slots, and only the ones wholly inside the area, so the
/// 224-byte remainder at the end is never a member.
pub const SD_ACL_MAX_MEMBERS: usize = 15;

/// Bytes of a node id: `addr[16]`, port, `io_addr[16]`, `io_port`, pad. A
/// node's address is 16 bytes whatever its family — an IPv4 address sits in
/// the last 4, the leading 12 zero — and its port is host order, like every
/// other integer on this wire.
pub const SD_NODE_ID_SIZE: usize = 40;

/// Node id offset: address.
pub const NID_OFF_ADDR: usize = 0;

/// Node id offset: port.
pub const NID_OFF_PORT: usize = 16;

/// Slots in a VDI's participant list: the hard ceiling on how many targets can
/// hold one volume's shared lock at once, and so on how many paths a cluster
/// subsystem has. A holder's slot in that fixed array is its identity among
/// them.
pub const VDI_MAX_HOLDERS: u16 = 31;

/// The same, as a count.
pub const SD_MAX_COPIES: usize = 31;

/// Bytes of a VDI state record.
pub const SD_VDI_STATE_SIZE: usize = 1432;

/// VDI state offset: vid.
pub const VS_OFF_VID: usize = 0;

/// VDI state offset: lock state.
pub const VS_OFF_LOCK_STATE: usize = 20;

/// VDI state offset: participant slots in use.
pub const VS_OFF_NR_PARTICIPANTS: usize = 64;

/// VDI state offset: the participants' states.
pub const VS_OFF_PARTICIPANTS_STATE: usize = 68;

/// VDI state offset: the participants' node ids.
pub const VS_OFF_PARTICIPANTS: usize = 192;

/// The lock state of a VDI held by a participant list (the other two being
/// unlocked, 1, and locked by one holder, 2).
pub const LOCK_STATE_SHARED: u32 = 3;

/// Records the first `GET_VDI_COPIES` asks for; a cluster with more VDIs
/// answers `SD_RES_BUFFER_SMALL` and the request is retried with twice the
/// buffer.
pub const SD_VDI_STATE_BATCH: usize = 512;

/// Ceiling on that doubling: far past any real cluster, so a server that keeps
/// answering `BUFFER_SMALL` is failed rather than followed.
pub const SD_VDI_STATE_MAX: usize = 0x80_0000;

/// NVMe logical block shift (512 B), matching the other backends.
pub const BLOCK_SHIFT: u8 = 9;

/// Sentinel stored in the object map while a create is in flight. A real vid
/// is 24-bit, so it can never collide with one (nor with `0` = hole).
pub const VID_INFLIGHT: u32 = 0xffff_ffff;

/// IO error.
pub const EIO: i32 = 5;

/// Invalid argument.
pub const EINVAL: i32 = 22;

/// Inode object id for a vid.
pub open spec fn vdi_oid(vid: u32) -> u64 {
    VDI_BIT | ((vid as u64) << 32u64)
}

/// Data object id for object index `idx` of a vid.
pub open spec fn data_oid(vid: u32, idx: u64) -> u64 {
    ((vid as u64) << 32u64) | (idx & 0xFFFF_FFFF)
}

/// Inode object id for a vid.
pub fn vid_to_vdi_oid(vid: u32) -> (r: u64)
    ensures
        r == vdi_oid(vid),
{
    VDI_BIT | ((vid as u64) << 32u64)
}

/// Data object id for object index `idx` of a vid.
pub fn vid_to_data_oid(vid: u32, idx: u64) -> (r: u64)
    ensures
        r == data_oid(vid, idx),
{
    ((vid as u64) << 32u64) | (idx & 0xFFFF_FFFF)
}

/// Object ids give their vid back, and tell inodes from data and one data
/// object of a volume from another.
pub proof fn lemma_oids(vid: u32, idx: u64, other: u32, at: u64)
    requires
        vid < SD_NR_VDIS,
        other < SD_NR_VDIS,
        idx < 0x1_0000_0000,
        at < 0x1_0000_0000,
    ensures
        (data_oid(vid, idx) & 0x00FF_FFFF_0000_0000) >> 32u64 == vid as u64,
        (vdi_oid(vid) & 0x00FF_FFFF_0000_0000) >> 32u64 == vid as u64,
        data_oid(vid, idx) == data_oid(other, at) <==> vid == other && idx == at,
        vdi_oid(vid) == vdi_oid(other) <==> vid == other,
        vdi_oid(vid) != data_oid(other, at),
        data_oid(vid, idx) as int == vid * 0x1_0000_0000 + idx,
        vdi_oid(vid) as int == 0x8000_0000_0000_0000 + vid * 0x1_0000_0000,
{
    lemma_oid_bits(vid, idx, other, at);
}

proof fn lemma_oid_bits(vid: u32, idx: u64, other: u32, at: u64)
    by (bit_vector)
    requires
        vid < 0x100_0000u32,
        other < 0x100_0000u32,
        idx < 0x1_0000_0000u64,
        at < 0x1_0000_0000u64,
    ensures
        ((((vid as u64) << 32u64) | (idx & 0xFFFF_FFFF)) & 0x00FF_FFFF_0000_0000) >> 32u64
            == vid as u64,
        ((0x8000_0000_0000_0000u64 | ((vid as u64) << 32u64)) & 0x00FF_FFFF_0000_0000) >> 32u64
            == vid as u64,
        ((((vid as u64) << 32u64) | (idx & 0xFFFF_FFFF)) == (((other as u64) << 32u64) | (at
            & 0xFFFF_FFFF))) <==> (vid == other && idx == at),
        ((0x8000_0000_0000_0000u64 | ((vid as u64) << 32u64)) == (0x8000_0000_0000_0000u64 | ((
        other as u64) << 32u64))) <==> vid == other,
        (0x8000_0000_0000_0000u64 | ((vid as u64) << 32u64)) != (((other as u64) << 32u64) | (at
            & 0xFFFF_FFFF)),
        (((vid as u64) << 32u64) | (idx & 0xFFFF_FFFF)) == vid * 0x1_0000_0000 + idx,
        (0x8000_0000_0000_0000u64 | ((vid as u64) << 32u64)) == 0x8000_0000_0000_0000 + vid
            * 0x1_0000_0000,
{
}

/// The header of an object request.
pub open spec fn obj_req(
    opcode: u8,
    flags: u16,
    id: u32,
    data_length: u32,
    oid: u64,
    cow_oid: u64,
    copies: u8,
    offset: u64,
) -> Seq<u8> {
    seq![SD_PROTO_VER, opcode] + bytes::le(flags as nat, 2) + bytes::zeroes(4) + bytes::le(
        id as nat,
        4,
    ) + bytes::le(data_length as nat, 4) + bytes::le(oid as nat, 8) + bytes::le(cow_oid as nat, 8)
        + seq![copies] + bytes::zeroes(7) + bytes::le(offset as nat, 8)
}

/// The header of a VDI request: `base_vdi_id` at 24, `snapid` at 32, `acl` at
/// 36.
pub open spec fn vdi_req(
    opcode: u8,
    flags: u16,
    data_length: u32,
    snapid: u32,
    base_vdi_id: u32,
    acl: u32,
) -> Seq<u8> {
    seq![SD_PROTO_VER, opcode] + bytes::le(flags as nat, 2) + bytes::zeroes(8) + bytes::le(
        data_length as nat,
        4,
    ) + bytes::zeroes(8) + bytes::le(base_vdi_id as nat, 4) + bytes::zeroes(4) + bytes::le(
        snapid as nat,
        4,
    ) + bytes::le(acl as nat, 4) + bytes::zeroes(8)
}

/// The header of a lock request: `vid` at 16, `addr[16]` at 24, `port` at 40,
/// `acl` at 44.
pub open spec fn vdi_lock_req(
    opcode: u8,
    flags: u16,
    data_length: u32,
    vid: u32,
    owner: addr::Endpoint,
    acl: u32,
) -> Seq<u8> {
    seq![SD_PROTO_VER, opcode] + bytes::le(flags as nat, 2) + bytes::zeroes(8) + bytes::le(
        data_length as nat,
        4,
    ) + bytes::le(vid as nat, 4) + bytes::zeroes(4) + node_addr(owner.ip) + bytes::le(
        owner.port as nat,
        2,
    ) + bytes::zeroes(2) + bytes::le(acl as nat, 4)
}

/// The header of a sheep-internal request that carries nothing but a
/// reply-buffer size.
pub open spec fn sheep_req(opcode: u8, data_length: u32) -> Seq<u8> {
    seq![SD_SHEEP_PROTO_VER, opcode] + bytes::zeroes(10) + bytes::le(data_length as nat, 4)
        + bytes::zeroes(32)
}

/// The header of a sheep-internal object request.
pub open spec fn sheep_obj_req(opcode: u8, oid: u64) -> Seq<u8> {
    seq![SD_SHEEP_PROTO_VER, opcode] + bytes::zeroes(14) + bytes::le(oid as nat, 8)
        + bytes::zeroes(24)
}

/// A node id's `addr[16]`: an IPv4 address in the last four bytes with the
/// leading twelve zero, an IPv6 address verbatim.
pub open spec fn node_addr(ip: addr::Ip) -> Seq<u8> {
    if ip.v4 {
        bytes::zeroes(12) + ip.octets
    } else {
        ip.octets
    }
}

/// The address an `addr[16]` says: IPv4 where the leading twelve bytes are
/// zero and the thirteenth is not.
pub open spec fn addr_node(a: Seq<u8>) -> addr::Ip {
    if a[12] != 0 && a.take(12) == bytes::zeroes(12) {
        addr::Ip { v4: true, octets: a.skip(12) }
    } else {
        addr::Ip { v4: false, octets: a }
    }
}

fn push_zeroes(out: &mut Vec<u8>, n: usize)
    ensures
        final(out)@ == old(out)@ + bytes::zeroes(n as nat),
{
    let ghost before = out@;
    for i in 0..n
        invariant
            out@ == before + bytes::zeroes(i as nat),
    {
        out.push(0);
        assert(out@ =~= before + bytes::zeroes((i + 1) as nat));
    }
    assert(out@ =~= before + bytes::zeroes(n as nat));
}

fn push_all(out: &mut Vec<u8>, b: &[u8])
    ensures
        final(out)@ == old(out)@ + b@,
{
    let ghost before = out@;
    let n: usize = b.len();
    for i in 0..n
        invariant
            n == b@.len(),
            out@ == before + b@.take(i as int),
    {
        out.push(b[i]);
        assert(out@ =~= before + b@.take(i as int + 1));
    }
    assert(b@.take(n as int) =~= b@);
}

fn fill(hdr: &mut [u8; 48], v: &Vec<u8>)
    requires
        v@.len() == 48,
    ensures
        final(hdr)@ == v@,
{
    for i in 0..48usize
        invariant
            v@.len() == 48,
            forall|j: int| 0 <= j < i ==> hdr@[j] == v@[j],
    {
        hdr[i] = v[i];
    }
    assert(hdr@ =~= v@);
}

/// Encode a 48-byte `obj` request header (little-endian). `offset` is the
/// in-object byte offset; other unused header fields stay zero.
pub fn encode_obj_req(
    hdr: &mut [u8; 48],
    opcode: u8,
    flags: u16,
    id: u32,
    data_length: u32,
    oid: u64,
    cow_oid: u64,
    copies: u8,
    offset: u64,
)
    ensures
        final(hdr)@ == obj_req(opcode, flags, id, data_length, oid, cow_oid, copies, offset),
{
    let mut v: Vec<u8> = Vec::new();
    v.push(SD_PROTO_VER);
    v.push(opcode);
    push_le(&mut v, flags as u128, 2);
    // The epoch is the gateway's to fill in.
    push_zeroes(&mut v, 4);
    push_le(&mut v, id as u128, 4);
    push_le(&mut v, data_length as u128, 4);
    push_le(&mut v, oid as u128, 8);
    push_le(&mut v, cow_oid as u128, 8);
    v.push(copies);
    push_zeroes(&mut v, 7);
    push_le(&mut v, offset as u128, 8);
    proof {
        lemma_lens(flags as nat, id as nat, data_length as nat, oid as nat);
        lemma_lens(0, 0, 0, cow_oid as nat);
        lemma_lens(0, 0, 0, offset as nat);
        assert(v@ =~= obj_req(opcode, flags, id, data_length, oid, cow_oid, copies, offset));
    }
    fill(hdr, &v);
}

proof fn lemma_lens(a: nat, b: nat, c: nat, d: nat)
    ensures
        bytes::le(a, 2).len() == 2,
        bytes::le(b, 4).len() == 4,
        bytes::le(c, 4).len() == 4,
        bytes::le(d, 8).len() == 8,
{
    bytes::lemma_le(a, 2);
    bytes::lemma_le(b, 4);
    bytes::lemma_le(c, 4);
    bytes::lemma_le(d, 8);
}

/// Encode a 48-byte `vdi` request header (the VDI lookup family).
/// `base_vdi_id` names the VDI for ops that take one directly rather than by
/// name; `acl` is the ACL id the request runs under, the scope `sheep`
/// resolves the name in (`0` = no ACL).
pub fn encode_vdi_req(
    hdr: &mut [u8; 48],
    opcode: u8,
    flags: u16,
    data_length: u32,
    snapid: u32,
    base_vdi_id: u32,
    acl: u32,
)
    ensures
        final(hdr)@ == vdi_req(opcode, flags, data_length, snapid, base_vdi_id, acl),
{
    let mut v: Vec<u8> = Vec::new();
    v.push(SD_PROTO_VER);
    v.push(opcode);
    push_le(&mut v, flags as u128, 2);
    push_zeroes(&mut v, 8);
    push_le(&mut v, data_length as u128, 4);
    push_zeroes(&mut v, 8);
    push_le(&mut v, base_vdi_id as u128, 4);
    push_zeroes(&mut v, 4);
    push_le(&mut v, snapid as u128, 4);
    push_le(&mut v, acl as u128, 4);
    push_zeroes(&mut v, 8);
    proof {
        lemma_lens(flags as nat, data_length as nat, base_vdi_id as nat, 0);
        lemma_lens(0, snapid as nat, acl as nat, 0);
        assert(v@ =~= vdi_req(opcode, flags, data_length, snapid, base_vdi_id, acl));
    }
    fill(hdr, &v);
}

/// Encode a 48-byte `vdi_lock` request header — the register/unregister pair,
/// whose distinguishing feature is that the *client* names the lock's owner
/// (`addr`/`port`) instead of the `sheep` gateway naming itself.
///
/// `REGISTER_VDI` looks its VDI up by name, from the payload the caller sends
/// after this header, and leaves `vid` zero; `UNREGISTER_VDI` carries the vid
/// and no payload. `acl` is both the scope the name resolves in and the lock
/// kind.
pub fn encode_vdi_lock_req(
    hdr: &mut [u8; 48],
    opcode: u8,
    flags: u16,
    data_length: u32,
    vid: u32,
    owner: SocketAddr,
    acl: u32,
)
    ensures
        final(hdr)@ == vdi_lock_req(opcode, flags, data_length, vid, owner@, acl),
{
    let mut v: Vec<u8> = Vec::new();
    v.push(SD_PROTO_VER);
    v.push(opcode);
    push_le(&mut v, flags as u128, 2);
    push_zeroes(&mut v, 8);
    push_le(&mut v, data_length as u128, 4);
    push_le(&mut v, vid as u128, 4);
    push_zeroes(&mut v, 4);
    let a = encode_node_addr(owner.ip);
    push_all(&mut v, vstd::array::array_as_slice(&a));
    push_le(&mut v, owner.port as u128, 2);
    push_zeroes(&mut v, 2);
    push_le(&mut v, acl as u128, 4);
    proof {
        lemma_lens(flags as nat, data_length as nat, vid as nat, 0);
        lemma_lens(owner.port as nat, acl as nat, 0, 0);
        assert(v@ =~= vdi_lock_req(opcode, flags, data_length, vid, owner@, acl));
    }
    fill(hdr, &v);
}

/// Encode a 48-byte sheep-internal request header (opcode `>= 0x80`, hence
/// [`SD_SHEEP_PROTO_VER`]) that carries nothing but a reply-buffer size —
/// which is all `GET_VDI_COPIES` takes.
pub fn encode_sheep_req(hdr: &mut [u8; 48], opcode: u8, data_length: u32)
    ensures
        final(hdr)@ == sheep_req(opcode, data_length),
{
    let mut v: Vec<u8> = Vec::new();
    v.push(SD_SHEEP_PROTO_VER);
    v.push(opcode);
    push_zeroes(&mut v, 10);
    push_le(&mut v, data_length as u128, 4);
    push_zeroes(&mut v, 32);
    proof {
        lemma_lens(0, data_length as nat, 0, 0);
        assert(v@ =~= sheep_req(opcode, data_length));
    }
    fill(hdr, &v);
}

/// Encode a 48-byte sheep-internal *object* request header: the sheep-internal
/// version byte over an `obj` body, which is the shape the local object ops
/// take ([`SD_OP_EXIST`]).
pub fn encode_sheep_obj_req(hdr: &mut [u8; 48], opcode: u8, oid: u64)
    ensures
        final(hdr)@ == sheep_obj_req(opcode, oid),
{
    let mut v: Vec<u8> = Vec::new();
    v.push(SD_SHEEP_PROTO_VER);
    v.push(opcode);
    push_zeroes(&mut v, 14);
    push_le(&mut v, oid as u128, 8);
    push_zeroes(&mut v, 24);
    proof {
        lemma_lens(0, 0, 0, oid as nat);
        assert(v@ =~= sheep_obj_req(opcode, oid));
    }
    fill(hdr, &v);
}

/// A node id's `addr[16]`: an IPv4 address in the last four bytes with the
/// leading twelve zero, an IPv6 address verbatim.
pub fn encode_node_addr(ip: IpAddr) -> (r: [u8; 16])
    ensures
        r@ == node_addr(ip@),
{
    let mut a = [0u8; 16];
    match ip {
        IpAddr::V4(o) => {
            a[12] = o[0];
            a[13] = o[1];
            a[14] = o[2];
            a[15] = o[3];
        },
        IpAddr::V6(o) => {
            a = o;
        },
    }
    assert(a@ =~= node_addr(ip@));
    a
}

/// Decode a node id's `addr[16]`, undoing [`encode_node_addr`]: the IPv4 form
/// is "the leading twelve bytes are zero and the thirteenth is not", the same
/// test `addr_to_str` applies before printing a node.
pub fn decode_node_addr(a: &[u8; 16]) -> (r: IpAddr)
    ensures
        r@ == addr_node(a@),
{
    let mut zero: bool = true;
    for i in 0..12usize
        invariant
            zero == (forall|j: int| 0 <= j < i ==> #[trigger] a@[j] == 0),
    {
        if a[i] != 0 {
            zero = false;
        }
    }
    proof {
        if zero {
            assert(a@.take(12) =~= bytes::zeroes(12));
        } else {
            let j = choose|j: int| 0 <= j < 12 && #[trigger] a@[j] != 0;
            assert(a@.take(12)[j] != bytes::zeroes(12)[j]);
        }
    }
    if a[12] != 0 && zero {
        let o = [a[12], a[13], a[14], a[15]];
        assert(o@ =~= a@.skip(12));
        IpAddr::V4(o)
    } else {
        IpAddr::V6(*a)
    }
}

/// An address comes back from its `addr[16]`, but for IPv4 addresses whose
/// first octet is zero and IPv6 ones that look like an IPv4 one.
pub proof fn lemma_node_addr_round_trip(ip: addr::Ip)
    requires
        ip.octets.len() == if ip.v4 {
            4nat
        } else {
            16nat
        },
        ip.v4 ==> ip.octets[0] != 0,
        !ip.v4 ==> ip.octets[12] == 0 || ip.octets.take(12) != bytes::zeroes(12),
    ensures
        addr_node(node_addr(ip)) == ip,
        node_addr(ip).len() == 16,
{
    let a = node_addr(ip);
    if ip.v4 {
        assert(a.take(12) =~= bytes::zeroes(12));
        assert(a.skip(12) =~= ip.octets);
        assert(a[12] == ip.octets[0]);
    }
}

/// The number in the four bytes of `buf` from `off` on.
pub open spec fn u32_at(buf: Seq<u8>, off: int) -> u32 {
    bytes::le_value(buf.subrange(off, off + 4)) as u32
}

/// The number in the eight bytes of `buf` from `off` on.
pub open spec fn u64_at(buf: Seq<u8>, off: int) -> u64 {
    bytes::le_value(buf.subrange(off, off + 8)) as u64
}

/// The number in the four bytes of `buf` from `off` on.
pub fn read_u32(buf: &[u8], off: usize) -> (r: u32)
    requires
        off + 4 <= buf@.len(),
    ensures
        r == u32_at(buf@, off as int),
{
    proof {
        bytes::lemma_pow256();
    }
    read_le(buf, off, 4) as u32
}

/// The number in the eight bytes of `buf` from `off` on.
pub fn read_u64(buf: &[u8], off: usize) -> (r: u64)
    requires
        off + 8 <= buf@.len(),
    ensures
        r == u64_at(buf@, off as int),
{
    proof {
        bytes::lemma_pow256();
    }
    read_le(buf, off, 8) as u64
}

/// Stamp the `id` a response will be routed back by.
pub fn set_req_id(hdr: &mut [u8; 48], id: u32)
    ensures
        final(hdr)@ == bytes::overwritten(old(hdr)@, 8, bytes::le(id as nat, 4)),
{
    let mut v: Vec<u8> = Vec::new();
    push_le(&mut v, id as u128, 4);
    proof {
        bytes::lemma_le(id as nat, 4);
        assert(v@ =~= bytes::le(id as nat, 4));
    }
    let ghost before = hdr@;
    hdr[8] = v[0];
    hdr[9] = v[1];
    hdr[10] = v[2];
    hdr[11] = v[3];
    assert(hdr@ =~= bytes::overwritten(before, 8, v@));
}

/// The `id` field of a response header — the one the request carried, echoed
/// back verbatim.
pub fn resp_id(hdr: &[u8; 48]) -> (r: u32)
    ensures
        r == u32_at(hdr@, 8),
{
    read_u32(vstd::array::array_as_slice(hdr), 8)
}

/// The `result` (`SD_RES_*`) field of a response header.
pub fn resp_result(hdr: &[u8; 48]) -> (r: u32)
    ensures
        r == u32_at(hdr@, 16),
{
    read_u32(vstd::array::array_as_slice(hdr), 16)
}

/// The `data_length` field of a response header.
pub fn resp_data_length(hdr: &[u8; 48]) -> (r: u32)
    ensures
        r == u32_at(hdr@, 12),
{
    read_u32(vstd::array::array_as_slice(hdr), 12)
}

/// A stamped id is the one read back.
pub proof fn lemma_id_round_trip(hdr: Seq<u8>, id: u32)
    requires
        hdr.len() == 48,
    ensures
        u32_at(bytes::overwritten(hdr, 8, bytes::le(id as nat, 4)), 8) == id,
{
    bytes::lemma_le(id as nat, 4);
    bytes::lemma_pow256();
    bytes::lemma_overwritten(hdr, 8, bytes::le(id as nat, 4));
}

/// The backend error of an `SD_RES_*` result.
pub open spec fn res_error(res: u32) -> BackendError {
    if res == SD_RES_NO_SPACE {
        BackendError::NoSpace
    } else if res == SD_RES_READONLY {
        BackendError::Unsupported
    } else {
        BackendError::Io(EIO)
    }
}

/// Map an `SD_RES_*` result to a backend error.
pub fn sd_res_to_backend(res: u32) -> (r: BackendError)
    ensures
        r == res_error(res),
{
    if res == SD_RES_NO_SPACE {
        BackendError::NoSpace
    } else if res == SD_RES_READONLY {
        BackendError::Unsupported
    } else {
        BackendError::Io(EIO)
    }
}

/// The backend error of a failed transfer: its errno, or an IO error where it
/// has none.
pub fn io_to_backend(errno: Option<i32>) -> (r: BackendError)
    ensures
        r == BackendError::Io(
            match errno {
                Some(e) => e,
                None => EIO,
            },
        ),
{
    match errno {
        Some(e) => BackendError::Io(e),
        None => BackendError::Io(EIO),
    }
}

/// A request on the wire: the header, the payload after it, and how many bytes
/// of reply payload there is room for.
#[derive(Debug)]
pub struct Request {
    /// The header.
    pub hdr: [u8; 48],
    /// The payload.
    pub payload: Vec<u8>,
    /// Room for reply payload; none where the answer is in the header alone.
    pub room: usize,
}

/// A reply: the header, as much payload as the request had room for — what the
/// server trimmed is zero —, and how much of that it sent.
#[derive(Debug)]
pub struct Reply {
    /// The header.
    pub hdr: [u8; 48],
    /// The payload, `room` bytes of it.
    pub data: Vec<u8>,
    /// Bytes of it that came.
    pub len: usize,
}

impl Reply {
    /// The `SD_RES_*` result.
    pub fn result(&self) -> (r: u32)
        ensures
            r == u32_at(self.hdr@, 16),
    {
        resp_result(&self.hdr)
    }
}

/// A request header of zeroes, to be encoded over.
pub fn blank_header() -> (r: [u8; 48])
    ensures
        r@ == bytes::zeroes(48),
{
    let r = [0u8; 48];
    assert(r@ =~= bytes::zeroes(48));
    r
}

/// The bytes of an inode's entry for `vid` in an object map.
pub fn map_entry(vid: u32) -> (r: Vec<u8>)
    ensures
        r@ == bytes::le(vid as nat, 4),
{
    let mut v: Vec<u8> = zero_bytes(0);
    push_le(&mut v, vid as u128, 4);
    assert(v@ =~= bytes::le(vid as nat, 4));
    v
}

// ---------------------------------------------------------------------------
// Where the fields are
// ---------------------------------------------------------------------------

/// The number in the `n` bytes of a header from `at` on, least significant first.
pub open spec fn field(h: Seq<u8>, at: int, n: int) -> nat {
    bytes::le_value(h.subrange(at, at + n))
}

/// Whether the bytes of a header from `from` up to `to` are zero.
pub open spec fn unused(h: Seq<u8>, from: int, to: int) -> bool {
    forall|i: int| from <= i < to ==> #[trigger] h[i] == 0
}

proof fn lemma_field(h: Seq<u8>, at: int, n: nat, v: nat)
    requires
        0 <= at,
        at + n <= h.len(),
        h.subrange(at, at + n) == bytes::le(v, n),
        v < bytes::pow256(n),
    ensures
        field(h, at, n as int) == v,
{
    bytes::lemma_le(v, n);
}

/// An object request says in its 48 bytes, each where the cluster looks for it:
/// the version 2 in byte 0, the opcode in byte 1, the flags in bytes 2 and 3, the
/// id in 8 to 11, the length of the data in 12 to 15, the object in 16 to 23, the
/// object to copy in 24 to 31, the copies in byte 32, the offset in 40 to 47.
pub proof fn lemma_obj_req_fields(
    opcode: u8,
    flags: u16,
    id: u32,
    data_length: u32,
    oid: u64,
    cow_oid: u64,
    copies: u8,
    offset: u64,
)
    ensures
        ({
            let h = obj_req(opcode, flags, id, data_length, oid, cow_oid, copies, offset);
            &&& h.len() == 48
            &&& h[0] == 2
            &&& h[1] == opcode
            &&& field(h, 2, 2) == flags
            &&& unused(h, 4, 8)
            &&& field(h, 8, 4) == id
            &&& field(h, 12, 4) == data_length
            &&& field(h, 16, 8) == oid
            &&& field(h, 24, 8) == cow_oid
            &&& h[32] == copies
            &&& unused(h, 33, 40)
            &&& field(h, 40, 8) == offset
        }),
{
    let h = obj_req(opcode, flags, id, data_length, oid, cow_oid, copies, offset);
    bytes::lemma_pow256();
    lemma_lens(flags as nat, id as nat, data_length as nat, oid as nat);
    lemma_lens(0, 0, 0, cow_oid as nat);
    lemma_lens(0, 0, 0, offset as nat);
    assert(h.subrange(2, 4) =~= bytes::le(flags as nat, 2));
    assert(h.subrange(8, 12) =~= bytes::le(id as nat, 4));
    assert(h.subrange(12, 16) =~= bytes::le(data_length as nat, 4));
    assert(h.subrange(16, 24) =~= bytes::le(oid as nat, 8));
    assert(h.subrange(24, 32) =~= bytes::le(cow_oid as nat, 8));
    assert(h.subrange(40, 48) =~= bytes::le(offset as nat, 8));
    lemma_field(h, 2, 2, flags as nat);
    lemma_field(h, 8, 4, id as nat);
    lemma_field(h, 12, 4, data_length as nat);
    lemma_field(h, 16, 8, oid as nat);
    lemma_field(h, 24, 8, cow_oid as nat);
    lemma_field(h, 40, 8, offset as nat);
}

/// A VDI request says in its 48 bytes: the version 2, the opcode, the flags, the
/// length of the data in 12 to 15, the base VDI in 24 to 27, the snapshot in 32
/// to 35, the ACL in 36 to 39.
pub proof fn lemma_vdi_req_fields(
    opcode: u8,
    flags: u16,
    data_length: u32,
    snapid: u32,
    base_vdi_id: u32,
    acl: u32,
)
    ensures
        ({
            let h = vdi_req(opcode, flags, data_length, snapid, base_vdi_id, acl);
            &&& h.len() == 48
            &&& h[0] == 2
            &&& h[1] == opcode
            &&& field(h, 2, 2) == flags
            &&& unused(h, 4, 12)
            &&& field(h, 12, 4) == data_length
            &&& unused(h, 16, 24)
            &&& field(h, 24, 4) == base_vdi_id
            &&& unused(h, 28, 32)
            &&& field(h, 32, 4) == snapid
            &&& field(h, 36, 4) == acl
            &&& unused(h, 40, 48)
        }),
{
    let h = vdi_req(opcode, flags, data_length, snapid, base_vdi_id, acl);
    bytes::lemma_pow256();
    lemma_lens(flags as nat, data_length as nat, base_vdi_id as nat, 0);
    lemma_lens(0, snapid as nat, acl as nat, 0);
    assert(h.subrange(2, 4) =~= bytes::le(flags as nat, 2));
    assert(h.subrange(12, 16) =~= bytes::le(data_length as nat, 4));
    assert(h.subrange(24, 28) =~= bytes::le(base_vdi_id as nat, 4));
    assert(h.subrange(32, 36) =~= bytes::le(snapid as nat, 4));
    assert(h.subrange(36, 40) =~= bytes::le(acl as nat, 4));
    lemma_field(h, 2, 2, flags as nat);
    lemma_field(h, 12, 4, data_length as nat);
    lemma_field(h, 24, 4, base_vdi_id as nat);
    lemma_field(h, 32, 4, snapid as nat);
    lemma_field(h, 36, 4, acl as nat);
}

/// A lock request says in its 48 bytes: the version 2, the opcode, the flags, the
/// length of the data in 12 to 15, the VDI in 16 to 19, the owner's address in 24
/// to 39 and its port in 40 and 41, the ACL in 44 to 47.
pub proof fn lemma_vdi_lock_req_fields(
    opcode: u8,
    flags: u16,
    data_length: u32,
    vid: u32,
    owner: addr::Endpoint,
    acl: u32,
)
    requires
        owner.ip.octets.len() == if owner.ip.v4 {
            4nat
        } else {
            16nat
        },
    ensures
        ({
            let h = vdi_lock_req(opcode, flags, data_length, vid, owner, acl);
            &&& h.len() == 48
            &&& h[0] == 2
            &&& h[1] == opcode
            &&& field(h, 2, 2) == flags
            &&& unused(h, 4, 12)
            &&& field(h, 12, 4) == data_length
            &&& field(h, 16, 4) == vid
            &&& unused(h, 20, 24)
            &&& owner.ip.v4 ==> unused(h, 24, 36) && h.subrange(36, 40) == owner.ip.octets
            &&& !owner.ip.v4 ==> h.subrange(24, 40) == owner.ip.octets
            &&& field(h, 40, 2) == owner.port
            &&& unused(h, 42, 44)
            &&& field(h, 44, 4) == acl
        }),
{
    let h = vdi_lock_req(opcode, flags, data_length, vid, owner, acl);
    bytes::lemma_pow256();
    lemma_lens(flags as nat, data_length as nat, vid as nat, 0);
    lemma_lens(owner.port as nat, acl as nat, 0, 0);
    assert(node_addr(owner.ip).len() == 16);
    assert(h.subrange(2, 4) =~= bytes::le(flags as nat, 2));
    assert(h.subrange(12, 16) =~= bytes::le(data_length as nat, 4));
    assert(h.subrange(16, 20) =~= bytes::le(vid as nat, 4));
    assert(h.subrange(24, 40) =~= node_addr(owner.ip));
    assert(h.subrange(40, 42) =~= bytes::le(owner.port as nat, 2));
    assert(h.subrange(44, 48) =~= bytes::le(acl as nat, 4));
    if owner.ip.v4 {
        assert(h.subrange(36, 40) =~= owner.ip.octets);
        assert forall|i: int| 24 <= i < 36 implies #[trigger] h[i] == 0 by {
            assert(h.subrange(24, 40)[i - 24] == node_addr(owner.ip)[i - 24]);
        }
    }
    lemma_field(h, 2, 2, flags as nat);
    lemma_field(h, 12, 4, data_length as nat);
    lemma_field(h, 16, 4, vid as nat);
    lemma_field(h, 40, 2, owner.port as nat);
    lemma_field(h, 44, 4, acl as nat);
}

/// A request for the nodes themselves is of version 10, and says the room for a
/// reply in bytes 12 to 15, or the object in 16 to 23.
pub proof fn lemma_sheep_req_fields(opcode: u8, data_length: u32, oid: u64)
    ensures
        ({
            let h = sheep_req(opcode, data_length);
            &&& h.len() == 48
            &&& h[0] == 10
            &&& h[1] == opcode
            &&& unused(h, 2, 12)
            &&& field(h, 12, 4) == data_length
            &&& unused(h, 16, 48)
        }),
        ({
            let h = sheep_obj_req(opcode, oid);
            &&& h.len() == 48
            &&& h[0] == 10
            &&& h[1] == opcode
            &&& unused(h, 2, 16)
            &&& field(h, 16, 8) == oid
            &&& unused(h, 24, 48)
        }),
{
    bytes::lemma_pow256();
    lemma_lens(0, data_length as nat, 0, oid as nat);
    let a = sheep_req(opcode, data_length);
    let b = sheep_obj_req(opcode, oid);
    assert(a.subrange(12, 16) =~= bytes::le(data_length as nat, 4));
    assert(b.subrange(16, 24) =~= bytes::le(oid as nat, 8));
    lemma_field(a, 12, 4, data_length as nat);
    lemma_field(b, 16, 8, oid as nat);
}

/// A number is read where it was written.
pub proof fn lemma_numbers_read_back(buf: Seq<u8>, off: int, v: u32, w: u64)
    requires
        0 <= off,
    ensures
        off + 4 <= buf.len() && buf.subrange(off, off + 4) == bytes::le(v as nat, 4) ==> u32_at(
            buf,
            off,
        ) == v,
        off + 8 <= buf.len() && buf.subrange(off, off + 8) == bytes::le(w as nat, 8) ==> u64_at(
            buf,
            off,
        ) == w,
{
    bytes::lemma_pow256();
    bytes::lemma_le(v as nat, 4);
    bytes::lemma_le(w as nat, 8);
}

/// A cluster that is out of space says so, what is read-only is not written, and
/// every other refusal is an IO error.
pub proof fn lemma_res_error(res: u32)
    ensures
        res_error(0x15) is NoSpace,
        res_error(0x1a) is Unsupported,
        res != 0x15 && res != 0x1a ==> res_error(res) == BackendError::Io(5),
{
}

/// The numbers a cluster goes by.
pub proof fn lemma_numbers()
    ensures
        SD_OP_CREATE_AND_WRITE_OBJ == 0x01,
        SD_OP_READ_OBJ == 0x02,
        SD_OP_WRITE_OBJ == 0x03,
        SD_OP_DISCARD_OBJ == 0x05,
        SD_OP_GET_VDI_INFO == 0x14,
        SD_OP_READ_VDIS == 0x15,
        SD_OP_REGISTER_VDI == 0x19,
        SD_OP_UNREGISTER_VDI == 0x1a,
        SD_OP_GET_VDI_COPIES == 0xab,
        SD_OP_EXIST == 0xbd,
        SD_FLAG_CMD_WRITE == 0x01,
        SD_FLAG_CMD_COW == 0x02,
        SD_FLAG_CMD_DIRECT == 0x08,
        SD_ACL_NONE == 0,
        SD_RES_SUCCESS == 0,
        SD_RES_VDI_NOT_LOCKED == 0x10,
        SD_RES_BUFFER_SMALL == 0x88,
{
}

} // verus!
