//! Sheepdog: object ids, request headers and what records hold.

use ioutgt::addr::{IpAddr, SocketAddr};
use ioutgt::backend::BackendError;
use ioutgt::sheepdog::calls::{parse_holders, vdi_holders, VdiHolder};
use ioutgt::sheepdog::ctl::{
    intake, make_reply, reply_len, request_bytes, Intake, Progress, Stop,
};
use ioutgt::sheepdog::inode::{read_cstr, read_uuid};
use ioutgt::sheepdog::wire::{
    blank_header, decode_node_addr, encode_node_addr, encode_obj_req, encode_sheep_req, encode_vdi_lock_req,
    encode_vdi_req, io_to_backend, read_u32, read_u64, resp_data_length, resp_id, resp_result,
    sd_res_to_backend, set_req_id, vid_to_data_oid, vid_to_vdi_oid, INO_OFF_ACL_ID,
    INO_OFF_BLOCK_SIZE_SHIFT, INO_OFF_MAX_DATA_ID_NR, INO_OFF_NR_COPIES, INO_OFF_SNAP_CTIME,
    INO_OFF_UUID, INO_OFF_VDI_EPOCH, INO_OFF_VDI_FLAGS, INO_OFF_VDI_SIZE, LOCK_STATE_SHARED,
    NID_OFF_ADDR, NID_OFF_PORT, SD_FLAG_CMD_DIRECT, SD_FLAG_CMD_WRITE, SD_HDR_SIZE,
    SD_INODE_HEADER_SIZE, SD_INODE_META_SIZE, SD_MAX_COPIES, SD_NODE_ID_SIZE, SD_OP_GET_VDI_COPIES,
    SD_OP_GET_VDI_INFO, SD_OP_REGISTER_VDI, SD_OP_UNREGISTER_VDI, SD_OP_WRITE_OBJ, SD_PROTO_VER,
    SD_RES_NO_SPACE, SD_SHEEP_PROTO_VER, SD_UUID_LEN, SD_VDI_STATE_SIZE, VDI_BIT,
    VS_OFF_LOCK_STATE, VS_OFF_NR_PARTICIPANTS, VS_OFF_PARTICIPANTS, VS_OFF_PARTICIPANTS_STATE,
    VS_OFF_VID,
};

fn v4(a: u8, b: u8, c: u8, d: u8, port: u16) -> SocketAddr {
    SocketAddr::new(IpAddr::V4([a, b, c, d]), port)
}

fn fd00(last: u8, port: u16) -> SocketAddr {
    let mut octets = [0u8; 16];
    octets[0] = 0xfd;
    octets[15] = last;
    SocketAddr::new(IpAddr::V6(octets), port)
}

#[test]
fn oid_math() {
    // Inode object has VDI_BIT set; data objects encode idx in the low bits.
    assert_eq!(vid_to_vdi_oid(0xab_cdef), VDI_BIT | (0x00ab_cdef << 32));
    assert_eq!(vid_to_data_oid(0xabcdef, 0), 0x00ab_cdef << 32);
    assert_eq!(vid_to_data_oid(0xabcdef, 7), (0x00ab_cdef << 32) | 7);
    // oid_to_vid inverse: (oid & SD_VDI_MASK) >> 32.
    let oid: u64 = vid_to_data_oid(0x123456, 42);
    assert_eq!((oid & 0x00FF_FFFF_0000_0000) >> 32, 0x123456);
}

#[test]
fn uuid_is_none_only_when_the_inode_carries_none() {
    let mut inode = vec![0u8; SD_INODE_META_SIZE];
    assert_eq!(read_uuid(&inode), None, "all-zero uuid[16] is unset");
    // A neighbouring field set does not make one appear...
    inode[INO_OFF_ACL_ID..INO_OFF_ACL_ID + 4].copy_from_slice(&0x4711u32.to_le_bytes());
    inode[INO_OFF_VDI_FLAGS..INO_OFF_VDI_FLAGS + 4].copy_from_slice(&1u32.to_le_bytes());
    assert_eq!(read_uuid(&inode), None);
    // ...and a real one is read back verbatim, in inode byte order.
    let uuid: [u8; SD_UUID_LEN] = std::array::from_fn(|i| i as u8 + 1);
    inode[INO_OFF_UUID..INO_OFF_UUID + SD_UUID_LEN].copy_from_slice(&uuid);
    assert_eq!(read_uuid(&inode), Some(uuid));
}

#[test]
fn obj_req_layout() {
    let mut hdr = [0u8; SD_HDR_SIZE];
    encode_obj_req(
        &mut hdr,
        SD_OP_WRITE_OBJ,
        SD_FLAG_CMD_WRITE | SD_FLAG_CMD_DIRECT,
        0x1122_3344,
        0x1000,
        0xdead_beef_0000_0000,
        0,
        3,
        0x4_0000,
    );
    assert_eq!(hdr[0], SD_PROTO_VER);
    assert_eq!(hdr[1], SD_OP_WRITE_OBJ);
    assert_eq!(u16::from_le_bytes([hdr[2], hdr[3]]), 0x09);
    assert_eq!(read_u32(&hdr, 8), 0x1122_3344); // id
    assert_eq!(read_u32(&hdr, 12), 0x1000); // data_length
    assert_eq!(read_u64(&hdr, 16), 0xdead_beef_0000_0000); // oid
    assert_eq!(hdr[32], 3); // copies
    assert_eq!(read_u64(&hdr, 40), 0x4_0000); // offset
}

#[test]
fn vdi_req_layout() {
    let mut hdr = [0u8; SD_HDR_SIZE];
    encode_vdi_req(
        &mut hdr,
        SD_OP_GET_VDI_INFO,
        SD_FLAG_CMD_WRITE,
        512,
        0,
        0,
        0,
    );
    assert_eq!(hdr[0], SD_PROTO_VER);
    assert_eq!(hdr[1], SD_OP_GET_VDI_INFO);
    assert_eq!(u16::from_le_bytes([hdr[2], hdr[3]]), SD_FLAG_CMD_WRITE);
    assert_eq!(read_u32(&hdr, 12), 512);

    // A lookup names its VDI in base_vdi_id (24) and its ACL scope in acl
    // (36) — the fields sd_req's vdi union puts there.
    encode_vdi_req(&mut hdr, SD_OP_GET_VDI_INFO, 0, 0, 0, 0xab_cdef, 0x4711);
    assert_eq!(read_u32(&hdr, 24), 0xab_cdef);
    assert_eq!(read_u32(&hdr, 32), 0); // snapid
    assert_eq!(read_u32(&hdr, 36), 0x4711); // acl
}

#[test]
fn vdi_lock_req_layout() {
    // REGISTER_VDI: no vid (the name in the payload resolves it), the
    // owner we choose in addr/port, the ACL id in acl.
    let mut hdr = [0u8; SD_HDR_SIZE];
    let owner = v4(10, 1, 2, 3, 14420);
    encode_vdi_lock_req(
        &mut hdr,
        SD_OP_REGISTER_VDI,
        SD_FLAG_CMD_WRITE,
        512,
        0,
        owner,
        0x4711,
    );
    assert_eq!(hdr[0], SD_PROTO_VER);
    assert_eq!(hdr[1], SD_OP_REGISTER_VDI);
    assert_eq!(u16::from_le_bytes([hdr[2], hdr[3]]), SD_FLAG_CMD_WRITE);
    assert_eq!(read_u32(&hdr, 12), 512);
    assert_eq!(read_u32(&hdr, 16), 0); // vid
    assert_eq!(
        &hdr[24..40],
        &[0, 0, 0, 0, 0, 0, 0, 0, 0, 0, 0, 0, 10, 1, 2, 3]
    );
    assert_eq!(u16::from_le_bytes([hdr[40], hdr[41]]), 14420);
    assert_eq!(read_u32(&hdr, 44), 0x4711);

    // UNREGISTER_VDI names the vid instead, and carries no payload.
    encode_vdi_lock_req(
        &mut hdr,
        SD_OP_UNREGISTER_VDI,
        0,
        0,
        0xab_cdef,
        owner,
        0x4711,
    );
    assert_eq!(hdr[1], SD_OP_UNREGISTER_VDI);
    assert_eq!(read_u32(&hdr, 12), 0);
    assert_eq!(read_u32(&hdr, 16), 0xab_cdef);

    // Sheep-internal opcodes ride the other protocol version.
    encode_sheep_req(&mut hdr, SD_OP_GET_VDI_COPIES, 4096);
    assert_eq!(hdr[0], SD_SHEEP_PROTO_VER);
    assert_eq!(hdr[1], SD_OP_GET_VDI_COPIES);
    assert_eq!(read_u32(&hdr, 12), 4096);
}

#[test]
fn node_addr_round_trips_both_families() {
    for ip in [v4(192, 168, 7, 9, 0).ip, fd00(1, 0).ip] {
        assert_eq!(decode_node_addr(&encode_node_addr(ip)), ip);
    }
    // An unset addr[16] is all zeroes, which is neither of the above and
    // must not be mistaken for 0.0.0.0.
    assert_eq!(decode_node_addr(&[0u8; 16]), IpAddr::V6([0u8; 16]));
}

#[test]
fn vdi_state_offsets_match_struct() {
    // participants_state[31] and participants[31] close out the record;
    // if the arithmetic drifts, GET_VDI_COPIES records misalign silently.
    assert_eq!(
        VS_OFF_PARTICIPANTS,
        VS_OFF_PARTICIPANTS_STATE + SD_MAX_COPIES * 4
    );
    assert_eq!(
        SD_VDI_STATE_SIZE,
        VS_OFF_PARTICIPANTS + SD_MAX_COPIES * SD_NODE_ID_SIZE
    );
}

/// A `vdi_state` record with `holders` participants, as `sheep` sends it.
fn vdi_state_record(vid: u32, lock_state: u32, holders: &[(SocketAddr, u32)]) -> Vec<u8> {
    let mut vs = vec![0u8; SD_VDI_STATE_SIZE];
    vs[VS_OFF_VID..VS_OFF_VID + 4].copy_from_slice(&vid.to_le_bytes());
    vs[VS_OFF_LOCK_STATE..VS_OFF_LOCK_STATE + 4].copy_from_slice(&lock_state.to_le_bytes());
    let nr: u32 = holders.len() as u32;
    vs[VS_OFF_NR_PARTICIPANTS..VS_OFF_NR_PARTICIPANTS + 4].copy_from_slice(&nr.to_le_bytes());
    for (i, (addr, count)) in holders.iter().enumerate() {
        let nid: usize = VS_OFF_PARTICIPANTS + i * SD_NODE_ID_SIZE;
        vs[nid + NID_OFF_ADDR..nid + NID_OFF_ADDR + 16]
            .copy_from_slice(&encode_node_addr(addr.ip));
        vs[nid + NID_OFF_PORT..nid + NID_OFF_PORT + 2].copy_from_slice(&addr.port.to_le_bytes());
        // shared state in the low byte, registration count above it.
        let state: u32 = 2u32 | (count << 8);
        let off: usize = VS_OFF_PARTICIPANTS_STATE + i * 4;
        vs[off..off + 4].copy_from_slice(&state.to_le_bytes());
    }
    vs
}

#[test]
fn holders_come_from_the_participant_list() {
    let vs = vdi_state_record(
        0x42,
        LOCK_STATE_SHARED,
        &[(v4(10, 0, 0, 1, 14420), 4), (fd00(2, 4420), 8)],
    );
    let holders = parse_holders(&vs);
    assert_eq!(
        holders,
        vec![
            VdiHolder {
                addr: v4(10, 0, 0, 1, 14420),
                index: 0,
                registrations: 4,
            },
            VdiHolder {
                addr: fd00(2, 4420),
                index: 1,
                registrations: 8,
            },
        ]
    );

    // A sheep predating the count reports zero, meaning one registration.
    let mut vs = vdi_state_record(0x42, LOCK_STATE_SHARED, &[(v4(10, 0, 0, 1, 14420), 0)]);
    assert_eq!(parse_holders(&vs)[0].registrations, 1);

    // Nobody serves an ACL that is unlocked, or one held exclusively.
    for state in [1u32, 2] {
        vs[VS_OFF_LOCK_STATE..VS_OFF_LOCK_STATE + 4].copy_from_slice(&state.to_le_bytes());
        assert!(parse_holders(&vs).is_empty());
    }

    // nr_participants is a wire value: never index past the array with it.
    let full = vec![(v4(10, 0, 0, 1, 14420), 1); SD_MAX_COPIES];
    let mut vs = vdi_state_record(0x42, LOCK_STATE_SHARED, &full);
    vs[VS_OFF_NR_PARTICIPANTS..VS_OFF_NR_PARTICIPANTS + 4].copy_from_slice(&999u32.to_le_bytes());
    assert_eq!(parse_holders(&vs).len(), SD_MAX_COPIES);
}

#[test]
fn a_departed_holder_leaves_a_hole_not_a_path() {
    // `sheep` clears the slot of a holder that unregistered and keeps
    // nr_participants covering it, so slot 1 here is a hole: no holder, and —
    // crucially for anything keyed on the slot — no renumbering of the holder
    // above it.
    let mut vs = vdi_state_record(
        0x42,
        LOCK_STATE_SHARED,
        &[
            (v4(10, 0, 0, 1, 14420), 1),
            (v4(10, 0, 0, 2, 14420), 1),
            (v4(10, 0, 0, 3, 14420), 1),
        ],
    );
    let hole: usize = VS_OFF_PARTICIPANTS_STATE + 4;
    vs[hole..hole + 4].copy_from_slice(&0u32.to_le_bytes());
    let nid: usize = VS_OFF_PARTICIPANTS + SD_NODE_ID_SIZE;
    vs[nid..nid + SD_NODE_ID_SIZE].fill(0);
    assert_eq!(
        parse_holders(&vs),
        vec![
            VdiHolder {
                addr: v4(10, 0, 0, 1, 14420),
                index: 0,
                registrations: 1,
            },
            VdiHolder {
                addr: v4(10, 0, 0, 3, 14420),
                index: 2,
                registrations: 1,
            },
        ]
    );
}

#[test]
fn each_volume_gets_the_holders_of_its_own_record() {
    let mut table = vdi_state_record(0x42, LOCK_STATE_SHARED, &[(v4(10, 0, 0, 1, 1), 1)]);
    table.extend(vdi_state_record(
        0x43,
        LOCK_STATE_SHARED,
        &[(v4(10, 0, 0, 2, 2), 1), (v4(10, 0, 0, 3, 3), 1)],
    ));
    let found = vdi_holders(&table, &[0x43, 0x99, 0x42]);
    assert_eq!(found.iter().map(Vec::len).collect::<Vec<_>>(), vec![2, 0, 1]);
    assert_eq!(found[0][1].addr, v4(10, 0, 0, 3, 3));
    assert_eq!(found[2][0].addr, v4(10, 0, 0, 1, 1));
}

#[test]
fn inode_header_offsets_match_struct() {
    // The header offsets are computed from the C struct layout; guard the
    // arithmetic (name[256]+tag[256] + fixed fields ... + __unused[]).
    assert_eq!(INO_OFF_SNAP_CTIME, 520);
    assert_eq!(INO_OFF_MAX_DATA_ID_NR, 528);
    assert_eq!(INO_OFF_VDI_SIZE, 536);
    // vdi_epoch sits between vdi_size and copy_policy/store_policy/
    // nr_copies; the ACL genctr is read from there.
    assert_eq!(INO_OFF_VDI_EPOCH, INO_OFF_VDI_SIZE + 8);
    assert_eq!(INO_OFF_NR_COPIES, 554);
    assert_eq!(INO_OFF_BLOCK_SIZE_SHIFT, 555);
    // acl_id (572) + uuid[16] (576) + vdi_flags (592) were carved out of
    // the leading __unused words; the metadata read must cover them.
    assert_eq!(INO_OFF_ACL_ID, 572);
    assert_eq!(INO_OFF_UUID, INO_OFF_ACL_ID + 4);
    assert_eq!(INO_OFF_VDI_FLAGS, INO_OFF_UUID + SD_UUID_LEN);
    assert_eq!(SD_INODE_META_SIZE, INO_OFF_VDI_FLAGS + 4);
    // offsetof(sd_inode, data_vdi_id): 572 (btree_counter) + 4092 (__unused).
    assert_eq!(SD_INODE_HEADER_SIZE, 572 + 4 * 1023);
}

#[test]
fn a_response_header_gives_back_its_fields() {
    let mut hdr = [0u8; SD_HDR_SIZE];
    set_req_id(&mut hdr, 0x0102_0304);
    assert_eq!(resp_id(&hdr), 0x0102_0304);
    hdr[12] = 0x10;
    hdr[16] = 0x15;
    assert_eq!(resp_data_length(&hdr), 0x10);
    assert_eq!(resp_result(&hdr), 0x15);
}

#[test]
fn cluster_failures_become_backend_failures() {
    assert_eq!(sd_res_to_backend(SD_RES_NO_SPACE), BackendError::NoSpace);
    assert!(matches!(sd_res_to_backend(0x1234), BackendError::Io(_)));
    assert_eq!(io_to_backend(Some(110)), BackendError::Io(110));
    assert_eq!(io_to_backend(None), BackendError::Io(5));
}

#[test]
fn a_name_field_ends_at_its_first_nul_and_is_read_lossily() {
    let mut field = [0u8; 16];
    field[..3].copy_from_slice(b"vol");
    field[5] = b'x';
    assert_eq!(read_cstr(&field), "vol");
    assert_eq!(read_cstr(b"\xffab\0"), "\u{fffd}ab");
    assert_eq!(read_cstr(b"abc"), "abc");
}

#[test]
fn a_request_goes_out_whole_and_its_reply_comes_back_padded() {
    let mut hdr = blank_header();
    hdr[0] = 9;
    let bytes = request_bytes(&hdr, &[1, 2, 3]);
    assert_eq!((bytes.len(), bytes[0], bytes[48], bytes[50]), (51, 9, 1, 3));

    // Short transfers are resumed; one that moves nothing ends it.
    let mut p = Progress::new(10);
    assert_eq!(p.want(4), Some(4));
    p.sent(4).unwrap();
    p.received(5).unwrap();
    assert_eq!(p.want(4), Some(1));
    assert_eq!(p.sent(0), Err(Stop::WriteZero));
    assert_eq!(p.received(0), Err(Stop::UnexpectedEof));
    p.sent(1).unwrap();
    assert_eq!(p.want(4), None);

    // What follows a header goes where there is room for it.
    hdr[12] = 5;
    assert_eq!(intake(&hdr, 8), Ok(Intake::Keep(5)));
    assert_eq!(intake(&hdr, 0), Ok(Intake::Drain(5)));
    let too_long = intake(&hdr, 4).unwrap_err();
    assert_eq!(
        too_long.message(),
        "response payload 5 exceeds the 4 requested"
    );
    assert_eq!(reply_len(&hdr, 5), Ok(5));
    let reply = make_reply(hdr, vec![7; 5], 8);
    assert_eq!((reply.data, reply.len), (vec![7, 7, 7, 7, 7, 0, 0, 0], 5));
}
