//! The Sheepdog backend against an in-memory fake `sheep`.
//!
//! The fake speaks the real 48-byte wire protocol against an in-memory object
//! store: the VDI lookup and inode read at open, object
//! read/write/allocate/discard, the cluster-wide VDI bitmap, the VDI state
//! table, and the cluster's ACL scoping — a lookup only sees names whose inode
//! `acl_id` matches the ACL it carries.

use std::collections::{BTreeMap, HashMap};

use ioutgt::addr::{IpAddr, SocketAddr};
use ioutgt::backend::{BackendError, LbaRange};
use ioutgt::cli::{cluster_subsystems, subsystems, Plan};
use ioutgt::config::{BackendConfig, SubsystemConfig};
use ioutgt::sheepdog::calls::{
    bitmap_reply, bitmap_request, release_reply, states_reply, states_request, vdi_holders,
    StatesStep, VdiHolder,
};
use ioutgt::sheepdog::ctl::make_reply;
use ioutgt::sheepdog::error::{CtlError, Kind};
use ioutgt::sheepdog::inode::{AclInfo, TableEntry, VdiInfo};
use ioutgt::sheepdog::list::{
    acl_members as list_members, acl_state, acl_state_reply, astray, list_vdis, mismatches,
    vdi_object_local, vdi_objects_local, AclWalk, Mismatch, Scan,
};
use ioutgt::sheepdog::mux::{payload_left, payload_taken, Gate, Phase, Reader, Session};
use ioutgt::sheepdog::open::{OpenStep, SheepdogBackend};
use ioutgt::sheepdog::volume::{Data, ObjRequest, ReadStep, ReadTask, WriteStep, WriteTask};
use ioutgt::sheepdog::wire::{
    decode_node_addr, encode_node_addr, map_entry, read_u32, read_u64, resp_id, sd_res_to_backend,
    set_req_id, Reply, Request, SD_MAX_COPIES, SD_VDI_STATE_SIZE,
};
use ioutgt::uuid::namespace_uuid;

const SD_OP_CREATE_AND_WRITE_OBJ: u8 = 0x01;
const SD_OP_READ_OBJ: u8 = 0x02;
const SD_OP_WRITE_OBJ: u8 = 0x03;
const SD_OP_DISCARD_OBJ: u8 = 0x05;
const SD_OP_GET_VDI_INFO: u8 = 0x14;
const SD_OP_READ_VDIS: u8 = 0x15;
const SD_OP_REGISTER_VDI: u8 = 0x19;
const SD_OP_UNREGISTER_VDI: u8 = 0x1A;
const SD_OP_GET_VDI_COPIES: u8 = 0xAB;
const SD_OP_EXIST: u8 = 0xBD;
const SD_RES_NO_OBJ: u32 = 0x02;
const SD_RES_VDI_LOCKED: u32 = 0x07;
const SD_RES_NO_VDI: u32 = 0x08;
const SD_RES_VDI_NOT_LOCKED: u32 = 0x10;
const SD_RES_NO_SPACE: u32 = 0x15;
const SD_RES_VDI_DENIED: u32 = 0x1E;
const SD_RES_BUFFER_SMALL: u32 = 0x88;
const SD_ACL_NONE: u32 = 0;
const SD_VDI_FLAG_ACL: u32 = 0x01;
const SD_FLAG_CMD_COW: u16 = 0x02;
const VDI_BIT: u64 = 1 << 63;
const SD_INODE_HEADER_SIZE: usize = 4664;
const SD_MAX_VDI_LEN: usize = 256;
const INO_OFF_METADATA: usize = 600;

fn data_oid(vid: u32, idx: u64) -> u64 {
    (u64::from(vid) << 32) | idx
}

fn oid_to_vid(oid: u64) -> u32 {
    ((oid & 0x00FF_FFFF_0000_0000) >> 32) as u32
}

fn cstr(field: &[u8]) -> String {
    let end = field.iter().position(|&b| b == 0).unwrap_or(field.len());
    String::from_utf8_lossy(&field[..end]).into_owned()
}

/// One VDI in the fake cluster.
struct Vdi {
    name: String,
    tag: String,
    snap_ctime: u64,
    vdi_size: u64,
    block_size_shift: u8,
    acl_id: u32,
    vdi_flags: u32,
    vdi_epoch: u64,
    uuid: Option<[u8; 16]>,
    data_vdi_id: Vec<u32>,
    members: Vec<String>,
}

/// One uuid per (name, tag), and never all-zero, so it is always
/// distinguishable from "unset".
fn uuid_of(name: &str, tag: &str) -> [u8; 16] {
    let mut uuid = [0x5du8; 16];
    for (i, b) in format!("{name}@{tag}").bytes().enumerate() {
        uuid[i % 16] ^= b.rotate_left(i as u32 % 8);
    }
    uuid
}

impl Vdi {
    fn new(name: &str, vdi_size: u64, block_size_shift: u8) -> Vdi {
        let nr_objects = vdi_size.div_ceil(1u64 << block_size_shift) as usize;
        Vdi {
            name: name.into(),
            tag: String::new(),
            snap_ctime: 0,
            vdi_size,
            block_size_shift,
            acl_id: SD_ACL_NONE,
            vdi_flags: 0,
            vdi_epoch: 0,
            uuid: Some(uuid_of(name, "")),
            data_vdi_id: vec![0u32; nr_objects],
            members: Vec::new(),
        }
    }

    /// An inode from a `sheep` that never wrote `uuid[16]`.
    fn no_uuid(mut self) -> Vdi {
        self.uuid = None;
        self
    }

    fn snapshot(mut self, tag: &str) -> Vdi {
        self.tag = tag.into();
        self.snap_ctime = 0x5f5e_0100;
        self.uuid = Some(uuid_of(&self.name, tag));
        self
    }

    /// Put this volume in the ACL object with vid `acl`.
    fn in_acl(mut self, acl: u32) -> Vdi {
        self.acl_id = acl;
        self
    }

    /// Make this VDI an ACL object rather than a volume, listing `members` — a
    /// `0` entry being the hole a removal leaves behind.
    fn acl_object(mut self, members: &[u32]) -> Vdi {
        self.vdi_flags |= SD_VDI_FLAG_ACL;
        self.data_vdi_id = members.to_vec();
        self
    }

    /// The ACL's member names, in slot order — an empty one being a hole.
    fn members(mut self, members: &[&str]) -> Vdi {
        self.members = members.iter().map(|m| (*m).to_string()).collect();
        self
    }

    fn object_size(&self) -> usize {
        1usize << self.block_size_shift
    }

    fn inode_bytes(&self) -> Vec<u8> {
        let mut b = vec![0u8; SD_INODE_HEADER_SIZE + self.data_vdi_id.len() * 4];
        b[..self.name.len()].copy_from_slice(self.name.as_bytes());
        b[SD_MAX_VDI_LEN..SD_MAX_VDI_LEN + self.tag.len()].copy_from_slice(self.tag.as_bytes());
        b[520..528].copy_from_slice(&self.snap_ctime.to_le_bytes());
        b[528..532].copy_from_slice(&(self.data_vdi_id.len() as u32).to_le_bytes());
        b[536..544].copy_from_slice(&self.vdi_size.to_le_bytes());
        b[544..552].copy_from_slice(&self.vdi_epoch.to_le_bytes());
        b[554] = 1; // nr_copies
        b[555] = self.block_size_shift;
        b[572..576].copy_from_slice(&self.acl_id.to_le_bytes());
        if let Some(uuid) = self.uuid {
            b[576..592].copy_from_slice(&uuid);
        }
        b[592..596].copy_from_slice(&self.vdi_flags.to_le_bytes());
        for (i, member) in self.members.iter().enumerate() {
            let o: usize = INO_OFF_METADATA + i * SD_MAX_VDI_LEN;
            b[o..o + member.len()].copy_from_slice(member.as_bytes());
        }
        for (i, v) in self.data_vdi_id.iter().enumerate() {
            let o: usize = SD_INODE_HEADER_SIZE + i * 4;
            b[o..o + 4].copy_from_slice(&v.to_le_bytes());
        }
        b
    }
}

/// A VDI lock held in the fake cluster.
#[derive(Debug, PartialEq, Eq)]
enum Lock {
    Exclusive,
    Shared { acl: u32, holders: u32 },
}

struct Sheep {
    vdis: BTreeMap<u32, Vdi>,
    objects: HashMap<u64, Vec<u8>>,
    /// Only `UNREGISTER_VDI` clears one.
    locks: BTreeMap<u32, Lock>,
    /// The owner each registration named, and how many it has.
    participants: BTreeMap<u32, Vec<(SocketAddr, u32)>>,
    /// The oids this node stores itself.
    local: Vec<u64>,
}

impl Sheep {
    /// Holders naming the same ACL stack, a no-ACL holder stands alone.
    fn take_lock(&mut self, vid: u32, acl: u32) -> bool {
        match (self.locks.get_mut(&vid), acl) {
            (Some(Lock::Shared { acl: held, holders }), _) if *held == acl => {
                *holders += 1;
                true
            }
            (Some(_), _) => false,
            (None, SD_ACL_NONE) => {
                self.locks.insert(vid, Lock::Exclusive);
                true
            }
            (None, acl) => {
                self.locks.insert(vid, Lock::Shared { acl, holders: 1 });
                true
            }
        }
    }

    /// The cluster only lets go of a lock the caller names correctly.
    fn release_lock(&mut self, vid: u32, acl: u32) -> bool {
        match self.locks.get_mut(&vid) {
            Some(Lock::Shared { acl: held, .. }) if *held != acl => false,
            Some(Lock::Exclusive) if acl != SD_ACL_NONE => false,
            Some(Lock::Shared { holders, .. }) if *holders > 1 => {
                *holders -= 1;
                true
            }
            Some(_) => {
                self.locks.remove(&vid);
                true
            }
            None => false,
        }
    }

    fn add_participant(&mut self, vid: u32, owner: SocketAddr) -> bool {
        let list = self.participants.entry(vid).or_default();
        if let Some(entry) = list.iter_mut().find(|(addr, _)| *addr == owner) {
            entry.1 += 1;
            return true;
        }
        if list.len() >= SD_MAX_COPIES {
            return false;
        }
        list.push((owner, 1));
        true
    }

    fn del_participant(&mut self, vid: u32, owner: SocketAddr) -> bool {
        let Some(list) = self.participants.get_mut(&vid) else {
            return false;
        };
        let Some(i) = list.iter().position(|(addr, _)| *addr == owner) else {
            return false;
        };
        list[i].1 -= 1;
        if list[i].1 == 0 {
            list.remove(i);
        }
        if list.is_empty() {
            self.participants.remove(&vid);
        }
        true
    }

    /// The `vdi_state` record of one VDI.
    fn state_record(&self, vid: u32) -> Vec<u8> {
        let mut rec = vec![0u8; SD_VDI_STATE_SIZE];
        rec[..4].copy_from_slice(&vid.to_le_bytes());
        let state: u32 = match self.locks.get(&vid) {
            None => 1,
            Some(Lock::Exclusive) => 2,
            Some(Lock::Shared { .. }) => 3,
        };
        rec[20..24].copy_from_slice(&state.to_le_bytes());
        let none = Vec::new();
        let list = self.participants.get(&vid).unwrap_or(&none);
        rec[64..68].copy_from_slice(&(list.len() as u32).to_le_bytes());
        for (i, (owner, count)) in list.iter().enumerate() {
            let nid: usize = 192 + i * 40;
            rec[nid..nid + 16].copy_from_slice(&encode_node_addr(owner.ip));
            rec[nid + 16..nid + 18].copy_from_slice(&owner.port.to_le_bytes());
            let st: u32 = 2 | (count << 8);
            rec[68 + i * 4..72 + i * 4].copy_from_slice(&st.to_le_bytes());
        }
        rec
    }

    fn named(&self, name: &str, tag: &str) -> Option<(u32, u32)> {
        self.vdis
            .iter()
            .find(|(_, vdi)| vdi.name == name && vdi.tag == tag)
            .map(|(&vid, vdi)| (vid, vdi.acl_id))
    }

    /// Answer one request.
    fn answer(&mut self, q: &Request) -> Reply {
        let opcode = q.hdr[1];
        let flags = u16::from_le_bytes([q.hdr[2], q.hdr[3]]);
        let oid = read_u64(&q.hdr, 16);
        let vid = oid_to_vid(oid);
        let offset = read_u64(&q.hdr, 40) as usize;
        let data_length = read_u32(&q.hdr, 12) as usize;
        let mut resp = [0u8; 48];
        resp[0] = 0x02;
        resp[1] = opcode;
        resp[8..12].copy_from_slice(&q.hdr[8..12]);
        let mut result = 0u32;
        let mut payload = Vec::new();
        match opcode {
            SD_OP_GET_VDI_INFO => {
                let name = cstr(&q.payload[..SD_MAX_VDI_LEN]);
                let tag = cstr(&q.payload[SD_MAX_VDI_LEN..]);
                let acl = read_u32(&q.hdr, 36);
                match self.named(&name, &tag) {
                    // The cluster resolves a name only within the ACL the
                    // request carries; from outside it, the VDI is denied.
                    Some((_, vdi_acl)) if vdi_acl != acl => result = SD_RES_VDI_DENIED,
                    Some((vid, _)) => resp[24..28].copy_from_slice(&vid.to_le_bytes()),
                    None => result = SD_RES_NO_VDI,
                }
            }
            SD_OP_REGISTER_VDI => {
                let name = cstr(&q.payload[..SD_MAX_VDI_LEN]);
                let mut ip = [0u8; 16];
                ip.copy_from_slice(&q.hdr[24..40]);
                let port = u16::from_le_bytes([q.hdr[40], q.hdr[41]]);
                let owner = SocketAddr::new(decode_node_addr(&ip), port);
                let acl = read_u32(&q.hdr, 44);
                result = match self.named(&name, "") {
                    None => SD_RES_NO_VDI,
                    Some((_, vdi_acl)) if vdi_acl != acl => SD_RES_VDI_DENIED,
                    Some((vid, _)) => {
                        if !self.take_lock(vid, acl) {
                            SD_RES_VDI_LOCKED
                        } else if acl != SD_ACL_NONE && !self.add_participant(vid, owner) {
                            self.release_lock(vid, acl);
                            SD_RES_NO_SPACE
                        } else {
                            0
                        }
                    }
                };
            }
            SD_OP_UNREGISTER_VDI => {
                let vid = read_u32(&q.hdr, 16);
                let mut ip = [0u8; 16];
                ip.copy_from_slice(&q.hdr[24..40]);
                let port = u16::from_le_bytes([q.hdr[40], q.hdr[41]]);
                let owner = SocketAddr::new(decode_node_addr(&ip), port);
                let acl = read_u32(&q.hdr, 44);
                let held = self.release_lock(vid, acl);
                let listed = acl == SD_ACL_NONE || self.del_participant(vid, owner);
                if !held || !listed {
                    result = SD_RES_VDI_NOT_LOCKED;
                }
            }
            SD_OP_GET_VDI_COPIES => {
                assert_eq!(q.hdr[0], 0x0a, "a sheep-internal op");
                let table: Vec<u8> = self
                    .vdis
                    .keys()
                    .flat_map(|&vid| self.state_record(vid))
                    .collect();
                if table.len() > data_length {
                    result = SD_RES_BUFFER_SMALL;
                } else {
                    payload = table;
                }
            }
            SD_OP_EXIST => {
                if !self.local.contains(&oid) {
                    result = SD_RES_NO_OBJ;
                }
            }
            SD_OP_READ_VDIS => {
                let mut bitmap = vec![0u8; 1 << 21];
                for vid in self.vdis.keys() {
                    bitmap[(vid / 8) as usize] |= 1 << (vid % 8);
                }
                payload = bitmap;
            }
            SD_OP_READ_OBJ => match self.vdis.get(&vid) {
                None => result = SD_RES_NO_OBJ,
                Some(vdi) => {
                    let bytes = if oid & VDI_BIT != 0 {
                        vdi.inode_bytes()
                    } else {
                        self.objects
                            .get(&oid)
                            .cloned()
                            .unwrap_or_else(|| vec![0u8; vdi.object_size()])
                    };
                    // Trimmed to what exists.
                    let end = (offset + data_length).min(bytes.len());
                    payload = bytes[offset.min(bytes.len())..end].to_vec();
                }
            },
            SD_OP_WRITE_OBJ => {
                if oid & VDI_BIT != 0 {
                    let idx: usize = (offset - SD_INODE_HEADER_SIZE) / 4;
                    let vdi = self.vdis.get_mut(&vid).expect("inode of a known vid");
                    vdi.data_vdi_id[idx] = read_u32(&q.payload, 0);
                } else {
                    let osz = self.vdis[&vid].object_size();
                    let obj = self.objects.entry(oid).or_insert_with(|| vec![0u8; osz]);
                    obj[offset..offset + q.payload.len()].copy_from_slice(&q.payload);
                }
            }
            SD_OP_CREATE_AND_WRITE_OBJ => {
                let osz = self.vdis[&vid].object_size();
                let mut obj = vec![0u8; osz];
                if flags & SD_FLAG_CMD_COW != 0 {
                    if let Some(base) = self.objects.get(&read_u64(&q.hdr, 24)) {
                        obj = base.clone();
                    }
                }
                obj[offset..offset + q.payload.len()].copy_from_slice(&q.payload);
                self.objects.insert(oid, obj);
            }
            SD_OP_DISCARD_OBJ => {
                let idx = (oid & 0xFFFF_FFFF) as usize;
                if let Some(vdi) = self.vdis.get_mut(&vid) {
                    if idx < vdi.data_vdi_id.len() && vdi.data_vdi_id[idx] != 0 {
                        vdi.data_vdi_id[idx] = 0;
                        self.objects.remove(&oid);
                    }
                }
            }
            _ => result = 0x01,
        }
        payload.truncate(q.room);
        resp[12..16].copy_from_slice(&(payload.len() as u32).to_le_bytes());
        resp[16..20].copy_from_slice(&result.to_le_bytes());
        make_reply(resp, payload, q.room)
    }

    fn map(&self, vid: u32, idx: usize) -> u32 {
        self.vdis[&vid].data_vdi_id[idx]
    }

    fn stores(&self, vid: u32, idx: u64) -> bool {
        self.objects.contains_key(&data_oid(vid, idx))
    }

    fn locked(&self) -> Vec<u32> {
        self.locks.keys().copied().collect()
    }

    fn holders(&self, vid: u32) -> u32 {
        match self.locks.get(&vid) {
            Some(&Lock::Shared { holders, .. }) => holders,
            _ => 0,
        }
    }
}

const TEST_VID: u32 = 0x00ab_cdef;
const ACL_VID: u32 = 0x0000_4711;
const ACL_NQN: &str = "nqn.2026-06.io.ioutgt:grp";
const HOST_A: &str = "nqn.2014-08.org.nvmexpress:uuid:host-a";
const HOST_B: &str = "nqn.2014-08.org.nvmexpress:uuid:host-b";

fn fresh_store(block_size_shift: u8, vdi_size: u64) -> Sheep {
    let mut vdis = BTreeMap::new();
    vdis.insert(TEST_VID, Vdi::new("testvdi", vdi_size, block_size_shift));
    Sheep {
        vdis,
        objects: HashMap::new(),
        locks: BTreeMap::new(),
        participants: BTreeMap::new(),
        local: Vec::new(),
    }
}

/// [`fresh_store`] with `testvdi` moved into an ACL object named [`ACL_NQN`].
fn acl_store(block_size_shift: u8, vdi_size: u64) -> Sheep {
    let mut sheep = fresh_store(block_size_shift, vdi_size);
    sheep.vdis.insert(
        ACL_VID,
        Vdi::new(ACL_NQN, 1 << 22, 22).acl_object(&[TEST_VID]),
    );
    sheep.vdis.get_mut(&TEST_VID).unwrap().acl_id = ACL_VID;
    sheep
}

fn gateway() -> SocketAddr {
    SocketAddr::new(IpAddr::V4([127, 0, 0, 1]), 7000)
}

/// The fabric address of target `n`.
fn target(n: u8) -> SocketAddr {
    SocketAddr::new(IpAddr::V4([10, 0, 0, n]), 4420)
}

fn open(
    sheep: &mut Sheep,
    vdi: &str,
    tag: Option<&str>,
    acl: Option<&str>,
    lock: Option<SocketAddr>,
) -> Result<SheepdogBackend, CtlError> {
    let (mut opening, mut step) = SheepdogBackend::open(
        gateway(),
        vdi,
        tag.map(String::from),
        acl.map(String::from),
        lock,
    );
    loop {
        step = match step {
            OpenStep::Connect => opening.connected(),
            OpenStep::Send(q) => opening.reply(&sheep.answer(&q)),
            OpenStep::FindRoute => opening.route_found(IpAddr::V4([10, 9, 9, 9])),
            OpenStep::Done(r) => return r,
        };
    }
}

fn release(sheep: &mut Sheep, be: &mut SheepdogBackend) {
    if let Some(q) = be.release_lock() {
        sheep.answer(&q);
    }
}

fn reregister(sheep: &mut Sheep, be: &SheepdogBackend) -> Result<(), CtlError> {
    match be.reregister() {
        None => Ok(()),
        Some(q) => {
            let found = sheep.answer(&q);
            let q = be.reregister_found(&found.hdr)?;
            be.reregister_done(&sheep.answer(&q).hdr)
        }
    }
}

fn send(
    sheep: &mut Sheep,
    be: &SheepdogBackend,
    req: &ObjRequest,
    buf: &[u8],
) -> Result<Vec<u8>, BackendError> {
    let (payload, room) = match req.data {
        Data::Nothing => (Vec::new(), 0),
        Data::From { from, len } => (buf[from..from + len].to_vec(), 0),
        Data::Into { len, .. } => (Vec::new(), len),
        Data::Zeroes { len } => (vec![0u8; len], 0),
        Data::Entry { vid } => (map_entry(vid), 0),
    };
    let reply = sheep.answer(&Request {
        hdr: req.header(be.volume.nr_copies)?,
        payload,
        room,
    });
    if reply.result() != 0 {
        return Err(sd_res_to_backend(reply.result()));
    }
    Ok(reply.data)
}

fn read(
    sheep: &mut Sheep,
    be: &SheepdogBackend,
    slba: u64,
    out: &mut [u8],
) -> Result<(), BackendError> {
    let mut task = ReadTask::start(&be.volume, slba, out.len())?;
    let mut last = Ok(());
    loop {
        last = match task.step(&be.volume, last) {
            ReadStep::Zero(p) => {
                out[p.from..p.from + p.len].fill(0);
                Ok(())
            }
            ReadStep::Fetch(req, p) => match send(sheep, be, &req, &[]) {
                Ok(data) => {
                    out[p.from..p.from + p.len].copy_from_slice(&data);
                    Ok(())
                }
                Err(e) => Err(e),
            },
            ReadStep::Finish(r) => return r,
        };
    }
}

fn run(
    sheep: &mut Sheep,
    be: &mut SheepdogBackend,
    task: WriteTask,
    buf: &[u8],
) -> Result<(), BackendError> {
    let mut task = task;
    let mut last = Ok(());
    loop {
        last = match task.step(&mut be.volume, last) {
            WriteStep::Send(req) => send(sheep, be, &req, buf).map(|_| ()),
            WriteStep::Wait => panic!("nobody else is writing"),
            WriteStep::Finish(r) => return r,
        };
    }
}

fn write(
    sheep: &mut Sheep,
    be: &mut SheepdogBackend,
    slba: u64,
    buf: &[u8],
) -> Result<(), BackendError> {
    let task = WriteTask::start(&be.volume, slba, buf.len())?;
    run(sheep, be, task, buf)
}

fn write_zeroes(
    sheep: &mut Sheep,
    be: &mut SheepdogBackend,
    range: LbaRange,
) -> Result<(), BackendError> {
    let task = WriteTask::start_zeroes(&be.volume, range)?;
    run(sheep, be, task, &[])
}

fn discard(
    sheep: &mut Sheep,
    be: &mut SheepdogBackend,
    ranges: &[LbaRange],
) -> Result<(), BackendError> {
    for task in be.volume.discard(ranges)? {
        run(sheep, be, task, &[])?;
    }
    Ok(())
}

fn table(sheep: &mut Sheep) -> Vec<TableEntry> {
    let bitmap = sheep.answer(&bitmap_request());
    bitmap_reply(&bitmap.hdr).unwrap();
    let mut scan = Scan::new(&bitmap.data);
    while let Some(q) = scan.next() {
        scan.reply(&sheep.answer(&q));
    }
    scan.entries
}

fn all_vdis(sheep: &mut Sheep) -> Vec<VdiInfo> {
    list_vdis(&table(sheep))
}

fn all_acls(sheep: &mut Sheep) -> Vec<AclInfo> {
    let mut walk = AclWalk::new(table(sheep));
    while let Some(q) = walk.next() {
        let mut ask = Some(q);
        while let Some(q) = ask {
            ask = walk.reply(&sheep.answer(&q)).unwrap();
        }
    }
    walk.found
}

fn holders_of(sheep: &mut Sheep, vids: &[u32]) -> Vec<Vec<VdiHolder>> {
    let mut records = 1;
    loop {
        let reply = sheep.answer(&states_request(records));
        match states_reply(records, reply).unwrap() {
            StatesStep::Ask(n) => records = n,
            StatesStep::Table(table) => return vdi_holders(&table, vids),
        }
    }
}

fn filled(len: usize, seed: u8) -> Vec<u8> {
    (0..len)
        .map(|i| (i as u8).wrapping_mul(31).wrapping_add(seed))
        .collect()
}

#[test]
fn read_hole_write_alloc_overwrite_roundtrip() {
    // 64 KiB data objects, 256 KiB volume (4 objects), 512-byte LBAs.
    let mut sheep = fresh_store(16, 256 * 1024);
    let mut be = open(&mut sheep, "testvdi", None, None, Some(target(1))).unwrap();
    assert_eq!(be.volume.block_shift(), 9);
    assert_eq!(be.volume.nr_blocks(), 256 * 1024 / 512);
    // io_boundary (Identify Namespace NOIOB, and what a controller-wide
    // DMRSL is derived from): the VDI's object size over its LBA size.
    assert_eq!(be.volume.io_boundary(), (64 * 1024) / 512);

    // 1. Unallocated volume reads back as zeros.
    let mut out = vec![1u8; 8192];
    read(&mut sheep, &be, 0, &mut out).unwrap();
    assert!(out.iter().all(|&b| b == 0), "hole reads zero");

    // 2. Write into object 0 (allocates it), read back.
    let pat = filled(8192, 7);
    write(&mut sheep, &mut be, 16, &pat).unwrap(); // slba 16 -> byte 8192
    let mut back = vec![0u8; 8192];
    read(&mut sheep, &be, 16, &mut back).unwrap();
    assert_eq!(back, pat, "allocated read-back");
    assert_ne!(sheep.map(TEST_VID, 0), 0, "inode map entry persisted");

    // 3. Overwrite the same region (fast path) with a new pattern.
    let pat2 = filled(8192, 200);
    write(&mut sheep, &mut be, 16, &pat2).unwrap();
    read(&mut sheep, &be, 16, &mut back).unwrap();
    assert_eq!(back, pat2, "overwrite read-back");

    // 4. Boundary-spanning write: 8 KiB straddling the 64 KiB object seam
    //    (byte 60 KiB .. 68 KiB → objects 0 and 1).
    let span = filled(8192, 99);
    let slba: u64 = (60 * 1024) / 512;
    write(&mut sheep, &mut be, slba, &span).unwrap();
    let mut sback = vec![0u8; 8192];
    read(&mut sheep, &be, slba, &mut sback).unwrap();
    assert_eq!(sback, span, "cross-object read-back");
    assert_ne!(sheep.map(TEST_VID, 1), 0, "object 1 allocated");

    // 5. write_zeroes clears a sub-range.
    write_zeroes(&mut sheep, &mut be, LbaRange { slba: 16, nlb: 8 }).unwrap(); // 4 KiB
    read(&mut sheep, &be, 16, &mut back).unwrap();
    assert!(back[..4096].iter().all(|&b| b == 0), "zeroed prefix");
    assert_eq!(&back[4096..], &pat2[4096..], "tail untouched");

    // 6. out-of-range is rejected.
    let err = read(&mut sheep, &be, be.volume.nr_blocks(), &mut back[..512]).unwrap_err();
    assert_eq!(err, BackendError::OutOfRange);
}

#[test]
fn write_zeroes_deallocates_whole_objects() {
    // 64 KiB data objects, 256 KiB volume (4 objects), 512-byte LBAs.
    let mut sheep = fresh_store(16, 256 * 1024);
    let mut be = open(&mut sheep, "testvdi", None, None, Some(target(1))).unwrap();

    // Allocate objects 0 and 1 (64 KiB each) with real data.
    let pat = filled(128 * 1024, 42);
    write(&mut sheep, &mut be, 0, &pat).unwrap();
    assert_ne!(sheep.map(TEST_VID, 0), 0);
    assert_ne!(sheep.map(TEST_VID, 1), 0);
    assert!(sheep.stores(TEST_VID, 0) && sheep.stores(TEST_VID, 1));

    // Zero object 0 whole and the first half of object 1: object 0 is
    // deallocated outright, but object 1 — only partly covered — keeps
    // its map entry and gets a real zero-filled write instead.
    let obj_blocks: u32 = (64 * 1024) / 512;
    write_zeroes(
        &mut sheep,
        &mut be,
        LbaRange {
            slba: 0,
            nlb: obj_blocks + obj_blocks / 2,
        },
    )
    .unwrap();

    assert_eq!(
        sheep.map(TEST_VID, 0),
        0,
        "whole object discarded, map entry cleared"
    );
    assert!(
        !sheep.stores(TEST_VID, 0),
        "the object itself is gone from the store"
    );
    assert_ne!(
        sheep.map(TEST_VID, 1),
        0,
        "partially-covered object keeps its map entry"
    );
    assert!(
        sheep.stores(TEST_VID, 1),
        "partially-covered object is zero-filled, not deleted"
    );

    let mut back = vec![0u8; 128 * 1024];
    read(&mut sheep, &be, 0, &mut back).unwrap();
    assert!(
        back[..96 * 1024].iter().all(|&b| b == 0),
        "discarded object and zeroed half read back as zero"
    );
    assert_eq!(
        &back[96 * 1024..],
        &pat[96 * 1024..],
        "untouched tail of object 1 survives"
    );
}

#[test]
fn discard_deallocates_whole_objects_and_rejects_misaligned_ranges() {
    // 64 KiB data objects, 256 KiB volume (4 objects), 512-byte LBAs.
    let mut sheep = fresh_store(16, 256 * 1024);
    let mut be = open(&mut sheep, "testvdi", None, None, Some(target(1))).unwrap();
    let obj_blocks: u32 = (64 * 1024) / 512;

    // Allocate objects 0, 1 and 2.
    let pat = filled(192 * 1024, 5);
    write(&mut sheep, &mut be, 0, &pat).unwrap();
    assert!((0..3).all(|i| sheep.stores(TEST_VID, i)));

    // A start offset off an object boundary is refused, and nothing is
    // touched.
    let err = discard(
        &mut sheep,
        &mut be,
        &[LbaRange {
            slba: 1,
            nlb: obj_blocks,
        }],
    )
    .unwrap_err();
    assert_eq!(err, BackendError::Unsupported);
    assert!(
        sheep.stores(TEST_VID, 0),
        "a rejected range leaves objects alone"
    );

    // A length other than exactly one object is refused too, whether
    // short or a multiple of the object size.
    for nlb in [obj_blocks - 1, obj_blocks * 2] {
        let err = discard(&mut sheep, &mut be, &[LbaRange { slba: 0, nlb }]).unwrap_err();
        assert_eq!(err, BackendError::Unsupported);
        assert!(sheep.stores(TEST_VID, 0));
    }

    // A batch where only the second range is bad discards nothing at
    // all: the whole batch is validated up front, not as it goes.
    let err = discard(
        &mut sheep,
        &mut be,
        &[
            LbaRange {
                slba: 0,
                nlb: obj_blocks,
            },
            LbaRange {
                slba: u64::from(obj_blocks),
                nlb: obj_blocks - 1,
            },
        ],
    )
    .unwrap_err();
    assert_eq!(err, BackendError::Unsupported);
    assert!(
        sheep.stores(TEST_VID, 0),
        "the good range in a rejected batch is untouched"
    );

    // Two whole, object-aligned ranges: both are deleted.
    discard(
        &mut sheep,
        &mut be,
        &[
            LbaRange {
                slba: 0,
                nlb: obj_blocks,
            },
            LbaRange {
                slba: u64::from(obj_blocks),
                nlb: obj_blocks,
            },
        ],
    )
    .unwrap();
    assert_eq!(sheep.map(TEST_VID, 0), 0);
    assert_eq!(sheep.map(TEST_VID, 1), 0);
    assert!(!sheep.stores(TEST_VID, 0) && !sheep.stores(TEST_VID, 1));
    assert_ne!(sheep.map(TEST_VID, 2), 0, "untouched object survives");
    assert!(sheep.stores(TEST_VID, 2));
}

#[test]
fn shared_lock_stacks_across_targets_and_unwinds_on_drop() {
    let mut sheep = acl_store(16, 256 * 1024);

    let mut be = open(&mut sheep, "testvdi", None, Some(ACL_NQN), Some(target(1))).unwrap();
    assert_eq!(sheep.holders(TEST_VID), 1, "the open took the lock");

    // A second target may serve the same VDI — that is what the shared lock
    // is for — and joins the holders rather than displacing the first.
    let mut second = open(&mut sheep, "testvdi", None, Some(ACL_NQN), Some(target(2))).unwrap();
    assert_eq!(sheep.holders(TEST_VID), 2);

    // An explicitly unlocked open goes through too, and disturbs nothing.
    let mut waived = open(&mut sheep, "testvdi", None, Some(ACL_NQN), None).unwrap();
    assert_eq!(sheep.holders(TEST_VID), 2);
    release(&mut sheep, &mut waived);
    assert_eq!(sheep.holders(TEST_VID), 2);

    // Each release hands back exactly one participant's hold.
    release(&mut sheep, &mut second);
    assert_eq!(sheep.holders(TEST_VID), 1, "the first target still holds");
    release(&mut sheep, &mut be);
    assert!(sheep.locked().is_empty(), "the last one freed the VDI");
}

#[test]
fn an_explicit_release_hands_the_lock_back_before_drop() {
    let mut sheep = fresh_store(16, 256 * 1024);

    let mut be = open(&mut sheep, "testvdi", None, None, Some(target(1))).unwrap();
    assert_eq!(sheep.locked(), vec![TEST_VID], "the open took the lock");

    release(&mut sheep, &mut be);
    assert!(sheep.locked().is_empty(), "shutdown freed the VDI");

    // Idempotent: a repeat does not name the lock again — the cluster would
    // refuse a release it does not hold, and a *new* holder's lock must
    // survive it.
    assert!(be.release_lock().is_none());
    let mut next = open(&mut sheep, "testvdi", None, None, Some(target(2))).unwrap();
    release(&mut sheep, &mut be);
    assert_eq!(
        sheep.locked(),
        vec![TEST_VID],
        "the released backend left the next holder alone"
    );
    release(&mut sheep, &mut next);
    assert!(sheep.locked().is_empty());

    // A backend that never locked (`?nolock`) shuts down just as quietly.
    let mut waived = open(&mut sheep, "testvdi", None, None, None).unwrap();
    release(&mut sheep, &mut waived);
    assert!(sheep.locked().is_empty());
}

#[test]
fn a_vdi_outside_any_acl_locks_exclusively() {
    let mut sheep = fresh_store(16, 256 * 1024);

    let mut be = open(&mut sheep, "testvdi", None, None, Some(target(1))).unwrap();
    assert_eq!(
        sheep.locks[&TEST_VID],
        Lock::Exclusive,
        "no ACL means LOCK_TYPE_NORMAL"
    );
    let err = open(&mut sheep, "testvdi", None, None, Some(target(2)))
        .err()
        .expect("a second exclusive open is refused");
    assert_eq!(err.kind(), Kind::ResourceBusy);
    release(&mut sheep, &mut be);
    assert!(sheep.locked().is_empty(), "the release freed the VDI");
}

#[test]
fn an_exclusive_holder_locks_the_target_out() {
    let mut sheep = acl_store(16, 256 * 1024);
    sheep.locks.insert(TEST_VID, Lock::Exclusive);

    let err = open(&mut sheep, "testvdi", None, Some(ACL_NQN), Some(target(1)))
        .err()
        .expect("an exclusively locked VDI is refused");
    assert_eq!(err.kind(), Kind::ResourceBusy);
    assert_eq!(sheep.locked(), vec![TEST_VID], "the holder keeps its lock");

    // Waiving the lock is the escape hatch for exclusion arranged elsewhere.
    let mut waived = open(&mut sheep, "testvdi", None, Some(ACL_NQN), None).unwrap();
    release(&mut sheep, &mut waived);
    assert_eq!(
        sheep.locks[&TEST_VID],
        Lock::Exclusive,
        "an unlocked open neither takes nor releases anything"
    );
}

#[test]
fn an_acl_scopes_which_names_resolve() {
    let mut sheep = acl_store(16, 256 * 1024);
    sheep
        .vdis
        .insert(0x00_0055, Vdi::new("loose", 1 << 20, 22));

    // A member named from outside its ACL, and a non-member named from inside
    // one: the cluster denies both.
    for (vdi, acl) in [("testvdi", None), ("loose", Some(ACL_NQN))] {
        let err = open(&mut sheep, vdi, None, acl, Some(target(1)))
            .err()
            .unwrap_or_else(|| panic!("{vdi} should be denied under {acl:?}"));
        assert_eq!(err.kind(), Kind::PermissionDenied, "{vdi}");
    }
    assert!(sheep.locked().is_empty(), "a denied open takes no lock");

    // An ordinary VDI is refused as an ACL even though the name resolves.
    let err = open(&mut sheep, "testvdi", None, Some("loose"), Some(target(1)))
        .err()
        .expect("'loose' is no ACL object");
    assert_eq!(err.kind(), Kind::InvalidInput);

    // Named correctly, the member opens.
    let be = open(&mut sheep, "testvdi", None, Some(ACL_NQN), Some(target(1))).unwrap();
    assert_eq!(be.volume.nr_blocks(), 256 * 1024 / 512);
}

#[test]
fn a_failed_open_leaves_no_registration() {
    // A zero-sized VDI passes the name lookup and fails the inode check.
    let mut sheep = fresh_store(16, 256 * 1024);
    sheep.vdis.insert(0x00_0042, Vdi::new("empty", 0, 22));

    let err = open(&mut sheep, "empty", None, None, Some(target(1)))
        .err()
        .expect("a zero-sized VDI is rejected");
    assert_eq!(err.kind(), Kind::InvalidData);
    assert!(sheep.locked().is_empty(), "a failed open leaves no lock");
}

#[test]
fn the_inode_uuid_is_read_back_as_the_vdi_identity() {
    let mut sheep = fresh_store(16, 256 * 1024);
    sheep
        .vdis
        .insert(0x00_0050, Vdi::new("legacy", 1 << 20, 22).no_uuid());

    let expected = sheep.vdis[&TEST_VID].uuid;
    assert!(expected.is_some(), "the fixture wrote a uuid");
    let be = open(&mut sheep, "testvdi", None, None, None).unwrap();
    assert_eq!(be.uuid(), expected, "open reports the inode's uuid");

    // An inode from a sheep predating the field carries an all-zero uuid,
    // which is "unset" rather than an identity to hand a host.
    let legacy = open(&mut sheep, "legacy", None, None, None).unwrap();
    assert_eq!(legacy.uuid(), None);

    // The enumeration path reads the same field, so a target mapping the
    // cluster and one opening a single VDI agree on every volume's identity.
    let vdis = all_vdis(&mut sheep);
    let seen: Vec<_> = vdis.iter().map(|v| (v.name.as_str(), v.uuid)).collect();
    assert_eq!(seen, vec![("legacy", None), ("testvdi", expected)]);
}

/// A cluster of loose volumes plus one snapshot, deliberately in neither vid
/// nor name order, and one ACL object holding two of them.
fn enumeration_store() -> Sheep {
    let mut sheep = fresh_store(16, 256 * 1024);
    let v = &mut sheep.vdis;
    v.insert(0x00_0002, Vdi::new("zeta", 1 << 20, 22));
    v.insert(0x00_0010, Vdi::new("alpha", 4 << 20, 22));
    v.insert(0x00_0011, Vdi::new("alpha", 4 << 20, 22).snapshot("daily"));
    // Unnamed / zero-sized inodes are not exportable volumes.
    v.insert(0x00_0012, Vdi::new("", 1 << 20, 22));
    v.insert(0x00_0013, Vdi::new("empty", 0, 22));
    // An ACL object and its two members — with the hole a third, since
    // removed, member left in the array — plus an empty second ACL. Two
    // hosts are members of the first (again around a hole), none of the
    // second.
    v.insert(
        ACL_VID,
        Vdi::new(ACL_NQN, 1 << 22, 22)
            .acl_object(&[0x00_0020, 0, 0x00_0021])
            .members(&[HOST_A, "", HOST_B]),
    );
    v.insert(0x00_0020, Vdi::new("shared", 8 << 20, 22).in_acl(ACL_VID));
    v.insert(
        0x00_0021,
        Vdi::new("shared", 8 << 20, 22)
            .snapshot("daily")
            .in_acl(ACL_VID),
    );
    v.insert(
        0x00_0030,
        Vdi::new("nqn.2026-06.io.ioutgt:idle", 1 << 22, 22).acl_object(&[]),
    );
    sheep
}

#[test]
fn cluster_enumeration_lists_every_vdi() {
    let mut sheep = enumeration_store();

    let vdis = all_vdis(&mut sheep);
    let seen: Vec<_> = vdis
        .iter()
        .map(|v| (v.name.as_str(), v.tag.as_str(), v.vid, v.size, v.acl))
        .collect();
    assert_eq!(
        seen,
        vec![
            ("alpha", "", 0x10, 4 << 20, 0),
            ("alpha", "daily", 0x11, 4 << 20, 0),
            ("shared", "", 0x20, 8 << 20, ACL_VID),
            ("shared", "daily", 0x21, 8 << 20, ACL_VID),
            ("testvdi", "", TEST_VID, 256 * 1024, 0),
            ("zeta", "", 0x02, 1 << 20, 0),
        ],
        "sorted by (name, tag), ACL objects and unnamed/empty inodes skipped"
    );
    assert!(
        vdis.iter().filter(|v| v.snapshot).count() == 2,
        "both snapshots flagged"
    );
    // Each VDI carries its own cluster-assigned uuid — a snapshot's differs
    // from its head's, so the two never collide as namespace identities.
    let uuids: Vec<_> = vdis.iter().map(|v| v.uuid.expect(&v.name)).collect();
    let mut unique = uuids.clone();
    unique.sort_unstable();
    unique.dedup();
    assert_eq!(unique.len(), uuids.len(), "one identity per VDI");

    // Every enumerated head is openable under the ACL the listing reports, and
    // reports the size the listing reports.
    for vdi in vdis.iter().filter(|v| !v.snapshot) {
        let acl = if vdi.acl != 0 { Some(ACL_NQN) } else { None };
        let be = open(&mut sheep, &vdi.name, None, acl, None).unwrap();
        assert_eq!(be.volume.nr_blocks() * 512, vdi.size, "{} size", vdi.name);
    }

    // The snapshot is openable by tag and refuses writes. Being frozen, it
    // takes no lock even though this open asks for one.
    let mut snap = open(&mut sheep, "alpha", Some("daily"), None, Some(target(1))).unwrap();
    assert!(sheep.locked().is_empty(), "a snapshot open locks nothing");
    assert_eq!(
        write(&mut sheep, &mut snap, 0, &[0u8; 512]).unwrap_err(),
        BackendError::Unsupported,
        "snapshots are read-only"
    );
}

#[test]
fn acl_enumeration_follows_the_acls_member_array() {
    let mut sheep = enumeration_store();
    // A VDI whose ACL object no longer exists belongs to no subsystem.
    sheep
        .vdis
        .insert(0x00_0040, Vdi::new("orphan", 1 << 20, 22).in_acl(0x00_0099));
    // The array entry is written before the member's acl_id, so a
    // half-completed add leaves a listed VDI whose inode disagrees...
    sheep
        .vdis
        .insert(0x00_0041, Vdi::new("halfadded", 1 << 20, 22));
    // ...and a VDI naming the ACL that the ACL does not list is not a
    // member of it either.
    sheep
        .vdis
        .insert(0x00_0042, Vdi::new("unlisted", 1 << 20, 22).in_acl(ACL_VID));
    let acl = sheep.vdis.get_mut(&ACL_VID).unwrap();
    acl.data_vdi_id.push(0x00_0041);
    acl.data_vdi_id.push(0x00_0050); // listed, but no such VDI at all

    let acls = all_acls(&mut sheep);
    let seen: Vec<_> = acls
        .iter()
        .map(|acl| {
            let members: Vec<_> = acl
                .vdis
                .iter()
                .map(|v| (v.name.as_str(), v.tag.as_str(), v.vid))
                .collect();
            (acl.name.as_str(), acl.vid, acl.max_data_id_nr, members)
        })
        .collect();
    assert_eq!(
        seen,
        vec![
            // Sorted by ACL name; an ACL with no members is still an ACL.
            // max_data_id_nr counts array slots, not usable members: the hole
            // and the two unresolvable entries are in it too.
            (
                "nqn.2026-06.io.ioutgt:grp",
                ACL_VID,
                5,
                vec![("shared", "", 0x20), ("shared", "daily", 0x21)]
            ),
            ("nqn.2026-06.io.ioutgt:idle", 0x30, 0, vec![]),
        ]
    );

    // The host side of the ACL: the member names, in slot order and without
    // the hole a removal left.
    let hosts: Vec<_> = acls.iter().map(|acl| acl.hosts.clone()).collect();
    assert_eq!(
        hosts,
        vec![vec![HOST_A.to_string(), HOST_B.to_string()], vec![]]
    );
}

fn acl_members(sheep: &mut Sheep, vid: u32) -> Vec<(String, String, u32)> {
    list_members(all_acls(sheep), vid)
        .iter()
        .map(|v| (v.name.clone(), v.tag.clone(), v.vid))
        .collect()
}

#[test]
fn acl_members_reflects_a_running_cluster() {
    let mut sheep = enumeration_store();
    sheep
        .vdis
        .insert(0x00_0041, Vdi::new("halfadded", 1 << 20, 22));
    let acl = sheep.vdis.get_mut(&ACL_VID).unwrap();
    acl.data_vdi_id.push(0x00_0041);
    acl.data_vdi_id.push(0x00_0050);

    assert_eq!(
        acl_members(&mut sheep, ACL_VID),
        vec![
            ("shared".to_string(), String::new(), 0x20),
            ("shared".to_string(), "daily".to_string(), 0x21),
        ]
    );

    // A running cluster's member list moves, and the next read sees it.
    sheep
        .vdis
        .insert(0x00_0043, Vdi::new("zulu", 1 << 20, 22).in_acl(ACL_VID));
    sheep
        .vdis
        .get_mut(&ACL_VID)
        .unwrap()
        .data_vdi_id
        .push(0x00_0043);
    let grown: Vec<_> = acl_members(&mut sheep, ACL_VID)
        .iter()
        .map(|v| v.2)
        .collect();
    assert_eq!(grown, vec![0x20, 0x21, 0x0043]);

    // A removal zeroes the slot in place rather than compacting.
    let acl = sheep.vdis.get_mut(&ACL_VID).unwrap();
    let pos = acl.data_vdi_id.iter().position(|&v| v == 0x20).unwrap();
    acl.data_vdi_id[pos] = 0;
    let shrunk: Vec<_> = acl_members(&mut sheep, ACL_VID)
        .iter()
        .map(|v| v.2)
        .collect();
    assert_eq!(shrunk, vec![0x21, 0x0043]);
}

#[test]
fn what_the_acls_and_the_volumes_disagree_on_is_told() {
    let mut sheep = enumeration_store();
    sheep
        .vdis
        .insert(0x00_0040, Vdi::new("orphan", 1 << 20, 22).in_acl(0x00_0099));
    sheep
        .vdis
        .insert(0x00_0041, Vdi::new("halfadded", 1 << 20, 22));
    sheep
        .vdis
        .insert(0x00_0042, Vdi::new("unlisted", 1 << 20, 22).in_acl(ACL_VID));
    let acl = sheep.vdis.get_mut(&ACL_VID).unwrap();
    acl.data_vdi_id.push(0x00_0041);
    acl.data_vdi_id.push(0x00_0050);
    let slots = acl.data_vdi_id.clone();

    let told = |m: &Mismatch| match m {
        Mismatch::Elsewhere(v) => format!("elsewhere {} {:x} {:x}", v.name, v.vid, v.acl),
        Mismatch::NoVolume(vid) => format!("no volume {vid:x}"),
        Mismatch::Unlisted(v) => format!("unlisted {} {:x}", v.name, v.vid),
    };
    let want = vec!["elsewhere halfadded 41 0", "no volume 50", "unlisted unlisted 42"];

    // The walk tells them for each ACL object while it awaits its state.
    let mut walk = AclWalk::new(table(&mut sheep));
    let mut seen: Vec<Vec<String>> = Vec::new();
    let mut ask = walk.next();
    while let Some(q) = ask {
        let now: Vec<String> = walk.mismatches().iter().map(told).collect();
        let state = q.hdr == acl_state(walk.table[walk.at].info.vid).hdr;
        if state {
            seen.push(now);
        } else {
            assert!(now.is_empty());
        }
        ask = match walk.reply(&sheep.answer(&q)).unwrap() {
            Some(q) => Some(q),
            None => walk.next(),
        };
    }
    assert_eq!(seen, vec![vec![], want.clone()]);
    assert!(walk.mismatches().is_empty());

    let all: Vec<String> = mismatches(&walk.table, ACL_VID, &slots).iter().map(told).collect();
    assert_eq!(all, want);
    // Every slot but the hole is a member or a disagreement.
    let members = walk.found.iter().find(|a| a.vid == ACL_VID).unwrap().vdis.len();
    assert_eq!(members + 2, slots.iter().filter(|&&v| v != 0).count());

    let lost: Vec<_> = astray(&walk.table, &walk.found)
        .iter()
        .map(|v| (v.name.clone(), v.acl))
        .collect();
    assert_eq!(lost, vec![("orphan".to_string(), 0x99)]);
    assert_eq!(astray(&walk.table, &Vec::new()).len(), 4);
}

fn holder(addr: SocketAddr, index: u16) -> VdiHolder {
    VdiHolder {
        addr,
        index,
        registrations: 1,
    }
}

#[test]
fn the_holders_of_a_volume_are_the_targets_serving_it() {
    let mut sheep = acl_store(16, 256 * 1024);
    let (us, peer) = (target(1), target(2));

    let mut be = open(&mut sheep, "testvdi", None, Some(ACL_NQN), Some(us)).unwrap();
    assert_eq!(be.vid(), TEST_VID);
    assert_eq!(be.owner(), Some(us), "the open registered our own address");
    assert_eq!(
        holders_of(&mut sheep, &[be.vid()]),
        vec![vec![holder(us, 0)]]
    );

    // A second target opens the same volume: both are paths to it now, each
    // with its own participant slot.
    let mut other = open(&mut sheep, "testvdi", None, Some(ACL_NQN), Some(peer)).unwrap();
    assert_eq!(
        holders_of(&mut sheep, &[TEST_VID])[0],
        vec![holder(us, 0), holder(peer, 1)]
    );

    // Shutting one down hands its registration back — the other keeps serving
    // the volume.
    release(&mut sheep, &mut other);
    assert_eq!(
        holders_of(&mut sheep, &[TEST_VID])[0],
        vec![holder(us, 0)]
    );

    // Nobody holds an unopened volume, and a vid the cluster never heard of
    // has no list at all: both answer empty, in the order asked.
    release(&mut sheep, &mut be);
    assert_eq!(
        holders_of(&mut sheep, &[TEST_VID, ACL_VID, 0x00_dead]),
        vec![vec![], vec![], vec![]]
    );
}

#[test]
fn an_exclusively_held_volume_reports_no_holders() {
    let mut sheep = fresh_store(16, 256 * 1024);

    let be = open(&mut sheep, "testvdi", None, None, Some(target(1))).unwrap();
    assert_eq!(sheep.locked(), vec![TEST_VID]);
    assert_eq!(holders_of(&mut sheep, &[be.vid()]), vec![vec![]]);

    // An open that took no registration has none to retake either.
    let waived = open(&mut sheep, "testvdi", None, None, None).unwrap();
    reregister(&mut sheep, &waived).unwrap();
    assert_eq!(sheep.locked(), vec![TEST_VID], "and took none doing so");
}

#[test]
fn a_dropped_registration_is_retaken() {
    let mut sheep = acl_store(16, 256 * 1024);
    let us = target(1);

    let mut be = open(&mut sheep, "testvdi", None, Some(ACL_NQN), Some(us)).unwrap();
    sheep.locks.clear();
    sheep.participants.clear();
    assert!(holders_of(&mut sheep, &[TEST_VID])[0].is_empty());

    reregister(&mut sheep, &be).unwrap();
    assert_eq!(
        holders_of(&mut sheep, &[TEST_VID])[0],
        vec![holder(us, 0)]
    );

    // A volume deleted and recreated under this namespace's feet resolves to a
    // different vid; registering on it would advertise a path to storage this
    // namespace is not reading, so it is refused.
    let vdi = sheep.vdis.remove(&TEST_VID).unwrap();
    sheep.vdis.insert(0x00_0099, vdi);
    let err = reregister(&mut sheep, &be).unwrap_err();
    assert_eq!(err.kind(), Kind::StaleHandle);

    // A backend that has already handed its registration back has nothing to
    // retake: a refresh arriving behind a shutdown must not undo it.
    release(&mut sheep, &mut be);
    reregister(&mut sheep, &be).unwrap();
    assert!(sheep.participants.is_empty());
}

#[test]
fn holder_list_survives_a_vdi_at_the_participant_ceiling() {
    let mut sheep = acl_store(16, 256 * 1024);

    for n in 1..=SD_MAX_COPIES as u8 {
        open(&mut sheep, "testvdi", None, Some(ACL_NQN), Some(target(n))).unwrap();
    }

    let holders = holders_of(&mut sheep, &[TEST_VID]);
    assert_eq!(
        holders[0].len(),
        SD_MAX_COPIES,
        "every participant is reported, none dropped for want of buffer room"
    );
    for n in 1..=SD_MAX_COPIES as u8 {
        assert!(
            holders[0].iter().any(|h| h.addr == target(n)),
            "every registered target is distinct"
        );
    }

    let err = open(&mut sheep, "testvdi", None, Some(ACL_NQN), Some(target(99))).unwrap_err();
    assert_eq!(err.kind(), Kind::QuotaExceeded);
}

#[test]
fn one_connection_carries_concurrent_requests_answered_out_of_order() {
    // 64 KiB data objects, 256 KiB volume; object 0 is answered late.
    let mut sheep = fresh_store(16, 256 * 1024);
    let mut be = open(&mut sheep, "testvdi", None, None, Some(target(1))).unwrap();
    let obj: u64 = 64 * 1024 / 512; // LBAs per object
    for (i, seed) in [(0u64, 11u8), (1, 22)] {
        write(&mut sheep, &mut be, i * obj, &filled(4096, seed)).unwrap();
    }

    // Both reads are in flight on the one connection at once, each under its
    // own id.
    let mut session = Session::new();
    let mut sent = Vec::new();
    for i in 0..2u64 {
        let mut task = ReadTask::start(&be.volume, i * obj, 4096).unwrap();
        let req = match task.step(&be.volume, Ok(())) {
            ReadStep::Fetch(req, _) => req,
            other => panic!("unexpected step {other:?}"),
        };
        let (id, slot) = session.claim_slot(Some(4096)).unwrap();
        assert_eq!(session.acquire_send(slot), Gate::Taken);
        let mut hdr = req.header(be.volume.nr_copies).unwrap();
        set_req_id(&mut hdr, id);
        session.release_send();
        sent.push((slot, hdr));
    }

    // The second is answered first, and each response finds its own caller.
    let mut done = Vec::new();
    for (slot, hdr) in sent.iter().rev() {
        let reply = sheep.answer(&Request {
            hdr: *hdr,
            payload: Vec::new(),
            room: 4096,
        });
        let (found, room) = session.claim(resp_id(&reply.hdr)).unwrap();
        assert_eq!((found, room), (*slot, Some(4096)));
        session.complete(found, reply.result());
        assert_eq!(session.outcome(*slot), Some(Ok(0)));
        let seed = if *slot == sent[0].0 { 11 } else { 22 };
        assert_eq!(reply.data, filled(4096, seed), "it got its own response");
        done.push(u64::from(*slot));
        assert!(session.drop_request(*slot, Phase::Done).is_empty());
    }
    assert_eq!(done, vec![1, 0], "the late response came last");

    // A stale response finds nobody.
    assert_eq!(session.claim(resp_id(&sent[0].1)), None);
}

#[test]
fn a_dead_connection_fails_everybody_waiting() {
    let mut session = Session::new();
    let (_, a) = session.claim_slot(Some(512)).unwrap();
    let (_, b) = session.claim_slot(None).unwrap();
    assert_eq!(session.acquire_send(a), Gate::Taken);
    assert_eq!(session.acquire_send(b), Gate::Wait);
    let woken = session.poison().unwrap();
    assert!(woken.contains(&a) && woken.contains(&b));
    assert_eq!(session.outcome(a), Some(Err(5)));
    assert_eq!(session.outcome(b), Some(Err(5)));
    assert!(session.poison().is_none());
    let (_, c) = session.claim_slot(None).unwrap();
    assert_eq!(session.acquire_send(c), Gate::Dead);
}

#[test]
fn only_the_volume_name_is_looked_at_before_dialing() {
    let name = "x".repeat(256);
    let (_, step) = SheepdogBackend::open(gateway(), &name, None, None, None);
    assert!(matches!(step, OpenStep::Done(Err(CtlError::InvalidVdiName))));
    let (mut opening, step) =
        SheepdogBackend::open(gateway(), "v", None, Some(name.clone()), None);
    assert!(matches!(step, OpenStep::Connect));
    let step = opening.connected();
    assert!(matches!(step, OpenStep::Done(Err(CtlError::InvalidAclName))));
    let (mut opening, step) = SheepdogBackend::open(gateway(), "v", Some(name), None, None);
    assert!(matches!(step, OpenStep::Connect));
    let step = opening.connected();
    assert!(matches!(step, OpenStep::Done(Err(CtlError::TagTooLong))));
}

#[test]
fn those_in_line_to_send_are_woken_by_a_poisoning_only() {
    let line = || {
        let mut session = Session::new();
        let (_, a) = session.claim_slot(None).unwrap();
        let (_, b) = session.claim_slot(None).unwrap();
        assert_eq!(session.acquire_send(a), Gate::Taken);
        assert_eq!(session.acquire_send(b), Gate::Wait);
        // A reply to a request that was never sent.
        assert_eq!(session.complete(b, 0), Some(b));
        (session, a, b)
    };
    let (mut session, a, b) = line();
    assert_eq!(session.poison(), Some(vec![a, b]));
    assert!(session.send_queue.is_empty());
    assert!(session.slots[usize::from(b)].queued);

    let (mut session, a, b) = line();
    assert_eq!(session.reader_gone(), vec![a]);
    assert_eq!(session.send_queue, vec![b]);
    assert!(session.slots[usize::from(b)].queued);
    assert_eq!(session.outcome(b), Some(Ok(0)));
    assert_eq!(session.acquire_send(b), Gate::Dead);
    assert!(session.drop_request(b, Phase::Queued).is_empty());
    assert!(session.send_queue.is_empty());
}

#[test]
fn an_acls_members_are_found_by_its_vid() {
    let acl = |vid: u32, epoch: u64| AclInfo {
        name: format!("nqn.{vid}"),
        vid,
        max_data_id_nr: 1,
        vdis: vec![VdiInfo {
            name: format!("v{epoch}"),
            tag: String::new(),
            vid: 7,
            snapshot: false,
            size: 512,
            uuid: None,
            acl: vid,
        }],
        hosts: vec![],
        epoch,
    };
    let found = || vec![acl(3, 1), acl(9, 2), acl(9, 3)];
    assert_eq!(list_members(found(), 9)[0].name, "v2");
    assert!(list_members(found(), 4).is_empty());
}

#[test]
fn an_acl_objects_state_is_its_members_and_epoch() {
    let mut sheep = enumeration_store();
    sheep.vdis.get_mut(&ACL_VID).unwrap().vdi_epoch = 9;
    let state = acl_state_reply(&sheep.answer(&acl_state(ACL_VID))).unwrap();
    assert_eq!(state.epoch, 9);
    assert_eq!(state.hosts, vec![HOST_A.to_string(), HOST_B.to_string()]);
    assert!(!state.host_acl().allow_any_host);

    // An ACL nobody was added to expresses no opinion about hosts.
    let idle = acl_state_reply(&sheep.answer(&acl_state(0x30))).unwrap();
    assert!(idle.hosts.is_empty() && idle.host_acl().allow_any_host);
    let missing = acl_state_reply(&sheep.answer(&acl_state(0x77)));
    assert_eq!(missing.unwrap_err().kind(), Kind::Other);
}

#[test]
fn an_object_is_local_where_the_gateway_stores_it() {
    let mut sheep = fresh_store(16, 256 * 1024);
    sheep.local.push(VDI_BIT | (u64::from(TEST_VID) << 32));
    let vids = [TEST_VID, 0x55];
    let asked = vdi_objects_local(&vids);
    let local: Vec<bool> = asked
        .iter()
        .zip(vids)
        .map(|(q, vid)| vdi_object_local(vid, &sheep.answer(q).hdr).unwrap())
        .collect();
    assert_eq!(local, vec![true, false]);
}

#[test]
fn a_wildcard_fabric_registers_the_route_to_the_cluster() {
    let mut sheep = acl_store(16, 256 * 1024);
    let any = SocketAddr::new(IpAddr::V4([0; 4]), 4421);
    let be = open(&mut sheep, "testvdi", None, Some(ACL_NQN), Some(any)).unwrap();
    let routed = SocketAddr::new(IpAddr::V4([10, 9, 9, 9]), 4421);
    assert_eq!(be.owner(), Some(routed));
    assert_eq!(
        holders_of(&mut sheep, &[TEST_VID])[0],
        vec![holder(routed, 0)]
    );
}

#[test]
fn an_unknown_name_or_tag_is_not_found() {
    let mut sheep = fresh_store(16, 256 * 1024);
    let err = open(&mut sheep, "nosuch", None, None, None).unwrap_err();
    assert_eq!(err.kind(), Kind::NotFound);
    let err = open(&mut sheep, "", None, None, None).unwrap_err();
    assert_eq!(err, CtlError::InvalidVdiName);
    let long = "t".repeat(256);
    let err = open(&mut sheep, "testvdi", Some(&long), None, None).unwrap_err();
    assert_eq!(err, CtlError::TagTooLong);
    let err = open(&mut sheep, "testvdi", None, Some(""), None).unwrap_err();
    assert_eq!(err, CtlError::InvalidAclName);
}

const ACL_A: u32 = 0x10;
const ACL_B: u32 = 0x11;
const NQN_A: &str = "nqn.2026-06.io.ioutgt:grp-a";
const NQN_B: &str = "nqn.2026-06.io.ioutgt:grp-b";

/// The `uuid[16]` the fake cluster generated for `vid` when the VDI was
/// created: one per VDI and never all-zero.
fn fixture_uuid(vid: u32) -> [u8; 16] {
    let mut uuid = [0xa5u8; 16];
    uuid[..4].copy_from_slice(&vid.to_be_bytes());
    uuid
}

/// Two ACLs with two volumes each (one of them a snapshot), plus a volume in
/// no ACL — deliberately in neither vid nor name order.
fn cluster_fixture() -> Sheep {
    let mut sheep = fresh_store(16, 256 * 1024);
    sheep.vdis.clear();
    let vol = |vid: u32, name: &str, size: u64, acl: u32| {
        let mut v = Vdi::new(name, size, 22).in_acl(acl);
        v.uuid = Some(fixture_uuid(vid));
        v
    };
    let v = &mut sheep.vdis;
    v.insert(0x20, vol(0x20, "vol-b", 64 << 20, ACL_A));
    v.insert(0x21, vol(0x21, "vol-a", 32 << 20, ACL_A));
    v.insert(0x22, vol(0x22, "vol-a", 32 << 20, ACL_A).snapshot("daily"));
    v.insert(0x23, vol(0x23, "vol-c", 16 << 20, ACL_B));
    v.insert(0x25, vol(0x25, "vol-d", 8 << 20, ACL_B).no_uuid());
    v.insert(0x24, vol(0x24, "loose", 8 << 20, 0)); // in no ACL
    v.insert(
        ACL_A,
        Vdi::new(NQN_A, 4 << 20, 22).acl_object(&[0x20, 0x21, 0x22]),
    );
    v.insert(
        ACL_B,
        Vdi::new(NQN_B, 4 << 20, 22).acl_object(&[0x23, 0x25]),
    );
    sheep
}

fn expand(sheep: &mut Sheep, spec: &str) -> Vec<SubsystemConfig> {
    match subsystems(spec, 64, "nqn.unused").unwrap() {
        Plan::Built(v) => v,
        Plan::Cluster { addr, lock } => {
            let acls = all_acls(sheep);
            cluster_subsystems(&addr, gateway(), &acls, lock).unwrap()
        }
    }
}

#[test]
fn cluster_spec_expands_to_one_subsystem_per_acl() {
    let mut sheep = cluster_fixture();
    let addr = "127.0.0.1:7000";
    let subsystems = expand(&mut sheep, &format!("sheepdog:{addr}"));

    // One subsystem per ACL object, named by the ACL rather than by the
    // --subsys-nqn flag, sorted by name; the volume in no ACL is exported by
    // none of them.
    let mapped: Vec<_> = subsystems
        .iter()
        .map(|subsys| {
            let namespaces: Vec<_> = subsys
                .namespaces
                .iter()
                .map(|ns| match &ns.backend {
                    // Cluster mode locks every VDI it exports, under the ACL
                    // whose subsystem serves it (`?nolock` opts out).
                    BackendConfig::Sheepdog {
                        addr: cluster,
                        vdi,
                        tag,
                        acl,
                        lock,
                    } => {
                        assert!(lock, "nsid {}: cluster VDIs are locked", ns.nsid);
                        assert!(tag.is_none(), "nsid {}: heads only", ns.nsid);
                        assert_eq!(acl.as_deref(), Some(subsys.nqn.as_str()));
                        assert_eq!(cluster, addr);
                        (ns.nsid, vdi.clone())
                    }
                    other => panic!("expected a sheepdog backend, got {other:?}"),
                })
                .collect();
            (subsys.nqn.as_str(), namespaces)
        })
        .collect();
    assert_eq!(
        mapped,
        vec![
            // Both writable VDIs of ACL A, each on the NSID its vid (its
            // VDI-bitmap position) dictates rather than one assigned by
            // listing order; the snapshot is skipped.
            (
                NQN_A,
                vec![(0x21, "vol-a".to_string()), (0x20, "vol-b".to_string())]
            ),
            (
                NQN_B,
                vec![(0x23, "vol-c".to_string()), (0x25, "vol-d".to_string())]
            ),
        ]
    );

    // One serial per ACL: the group's cluster-wide identity, not the target's.
    assert_eq!(subsystems[0].serial, format!("SHEEPDOG{ACL_A:06X}"));
    assert_ne!(subsystems[0].serial, subsystems[1].serial);

    // Identity comes from the cluster — the VDI's own inode uuid — not from
    // the exporting subsystem, so one volume looks the same through any
    // target.
    let ns = &subsystems[0].namespaces;
    assert_eq!(ns[0].uuid, Some(fixture_uuid(0x21))); // vol-a
    assert_eq!(ns[1].uuid, Some(fixture_uuid(0x20))); // vol-b
    assert_ne!(ns[0].uuid, ns[1].uuid);

    // An inode with no uuid of its own falls back to one derived from the
    // VDI's name and vid, which are just as cluster-wide.
    assert_eq!(
        subsystems[1].namespaces[1].uuid, // vol-d
        Some(namespace_uuid("sheepdog:vol-d", 0x25)),
    );
}

#[test]
fn a_cluster_with_nothing_to_export_is_refused() {
    let mut sheep = fresh_store(16, 256 * 1024);
    let none = all_acls(&mut sheep);
    let err = cluster_subsystems("sheep0:7000", gateway(), &none, true).unwrap_err();
    assert!(err.contains("sheep0:7000"), "{err}");
    sheep
        .vdis
        .insert(0x30, Vdi::new(ACL_NQN, 1 << 22, 22).acl_object(&[]));
    let empty = all_acls(&mut sheep);
    assert_eq!(empty.len(), 1);
    assert!(cluster_subsystems("sheep0:7000", gateway(), &empty, true).is_err());
}

#[test]
fn the_reader_rests_while_nothing_is_owed() {
    let mut session = Session::new();
    assert_eq!(session.reader_next(), Reader::Park);
    let (id, idx) = session.claim_slot(Some(8)).unwrap();
    assert_eq!(session.reader_next(), Reader::Read);
    assert_eq!(session.claim(id), Some((idx, Some(8))));
    // A short reply fills part of the room, a long one leaves a rest.
    assert_eq!((payload_taken(5, Some(8)), payload_left(5, 5)), (5, 0));
    assert_eq!((payload_taken(20, Some(8)), payload_left(20, 8)), (8, 12));
    assert_eq!((payload_taken(20, None), payload_left(20, 0)), (0, 20));
    assert_eq!(session.reader_gone(), vec![idx]);
    assert_eq!(session.reader_next(), Reader::Leave);
    assert_eq!(session.outcome(idx), Some(Err(5)));
}

#[test]
fn a_registration_the_cluster_dropped_counts_as_released() {
    let mut hdr = [0u8; 48];
    assert!(release_reply(&hdr));
    hdr[16] = 0x10;
    assert!(release_reply(&hdr));
    hdr[16] = 0x07;
    assert!(!release_reply(&hdr));
}
