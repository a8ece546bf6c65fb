//! The data path of one volume: which object requests a read, a write, a
//! write-zeroes or a discard takes, one after the other.
//!
//! Writes bypass the object cache (`SD_FLAG_CMD_DIRECT`) so each is durable
//! and a flush has nothing to do. Writing an unallocated object allocates it
//! (`CREATE_AND_WRITE_OBJ`) and persists the new `data_vdi_id[]` entry back
//! into the inode; writing an object owned by a parent (snapshot)
//! copies-on-write (`SD_FLAG_CMD_COW`). Zeroes over a whole object deallocate
//! it (`DISCARD_OBJ`).
//!
//! Several transfers of one volume may be under way at once: each step looks
//! at the object map as it then is, and an object whose entry is being changed
//! is marked in it.

use vstd::prelude::*;

use crate::backend;
use crate::backend::{check_blocks, BackendError, LbaRange};
use crate::sheepdog::error::CtlError;
use crate::sheepdog::inode;
use crate::sheepdog::inode::read_uuid;
use crate::sheepdog::wire;
use crate::sheepdog::wire::{
    blank_header, encode_obj_req, read_u64, vid_to_data_oid, vid_to_vdi_oid, BLOCK_SHIFT,
    INO_OFF_BLOCK_SIZE_SHIFT, INO_OFF_NR_COPIES, INO_OFF_SNAP_CTIME, INO_OFF_VDI_SIZE,
    SD_FLAG_CMD_COW, SD_FLAG_CMD_DIRECT, SD_FLAG_CMD_WRITE, SD_INODE_DATA_INDEX,
    SD_INODE_HEADER_SIZE, SD_OP_CREATE_AND_WRITE_OBJ, SD_OP_DISCARD_OBJ,
    SD_OP_READ_OBJ, SD_OP_WRITE_OBJ, VID_INFLIGHT,
};

verus! {

/// What an inode says of a volume's shape.
#[derive(Debug, Clone, Copy, PartialEq, Eq)]
pub struct Shape {
    /// The inode's `uuid[16]`, or `None` when the cluster never wrote one.
    pub uuid: Option<[u8; 16]>,
    /// Data-object size in bytes (`1 << block_size_shift`).
    pub object_size: u32,
    /// Replication factor to request on object writes.
    pub nr_copies: u8,
    /// Size in 512-byte blocks.
    pub nr_blocks: u64,
    /// True for a snapshot (writes rejected).
    pub read_only: bool,
    /// Entries of the object map.
    pub nr_objects: u64,
}

/// 2 to the power `k`, for an object size.
pub open spec fn size_of_shift(k: u8) -> nat {
    vstd::arithmetic::power2::pow2(k as nat)
}

/// Entries of the object map a volume of `size` bytes in objects of `obj`
/// takes: one per object, never past the array.
pub open spec fn objects_of(size: nat, obj: nat) -> nat {
    let n = (size + obj - 1) as nat / obj;
    if n <= 0x10_0000 {
        n
    } else {
        0x10_0000
    }
}

/// Read a volume's shape out of its inode's metadata.
pub fn parse_shape(header: &[u8]) -> (r: Result<Shape, CtlError>)
    requires
        header@.len() == 596,
    ensures
        ({
            let shift = header@[555];
            let size = wire::u64_at(header@, 536);
            match r {
                Ok(s) => {
                    &&& 9 <= shift <= 31
                    &&& size != 0
                    &&& inode::uuid_bytes(s.uuid) == inode::uuid_in(header@)
                    &&& s.object_size == size_of_shift(shift)
                    &&& s.object_size % 512 == 0
                    &&& 512 <= s.object_size <= 0x8000_0000
                    &&& s.nr_copies == (if header@[554] == 0 {
                        1
                    } else {
                        header@[554]
                    })
                    &&& s.nr_blocks == size / 512
                    &&& s.read_only == (wire::u64_at(header@, 520) != 0)
                    &&& s.nr_objects == objects_of(size as nat, s.object_size as nat)
                    &&& 0 < s.nr_objects <= 0x10_0000
                },
                Err(CtlError::BadShift { shift: k }) => k == shift && !(9 <= shift <= 31),
                Err(CtlError::ZeroSize) => 9 <= shift <= 31 && size == 0,
                Err(_) => false,
            }
        }),
{
    let snap_ctime: u64 = read_u64(header, INO_OFF_SNAP_CTIME);
    let vdi_size: u64 = read_u64(header, INO_OFF_VDI_SIZE);
    let copies: u8 = header[INO_OFF_NR_COPIES];
    let nr_copies: u8 = if copies == 0 {
        1
    } else {
        copies
    };
    let shift: u8 = header[INO_OFF_BLOCK_SIZE_SHIFT];
    if shift < 9 || shift > 31 {
        return Err(CtlError::BadShift { shift });
    }
    if vdi_size == 0 {
        return Err(CtlError::ZeroSize);
    }
    proof {
        vstd::arithmetic::power2::lemma2_to64();
        assert(1 * size_of_shift(shift) == size_of_shift(shift));
        lemma_object_size(shift);
        vstd::bits::lemma_u32_shl_is_mul(1, shift as u32);
    }
    let object_size: u32 = 1u32 << (shift as u32);
    let obj: u64 = object_size as u64;
    let extra: u64 = if vdi_size % obj == 0 {
        0
    } else {
        1
    };
    let whole: u64 = vdi_size / obj;
    proof {
        lemma_div_ceil(vdi_size as int, obj as int);
        assert(whole <= 0x80_0000_0000_0000u64) by (nonlinear_arith)
            requires
                whole == vdi_size / obj,
                obj >= 512,
                vdi_size <= u64::MAX,
        ;
        assert(whole + extra > 0) by {
            if whole == 0 {
                vstd::arithmetic::div_mod::lemma_fundamental_div_mod(
                    vdi_size as int,
                    obj as int,
                );
            }
        }
    }
    let count: u64 = whole + extra;
    let nr_objects: u64 = if count <= SD_INODE_DATA_INDEX {
        count
    } else {
        SD_INODE_DATA_INDEX
    };
    Ok(
        Shape {
            uuid: read_uuid(header),
            object_size,
            nr_copies,
            nr_blocks: vdi_size / 512,
            read_only: snap_ctime != 0,
            nr_objects,
        },
    )
}

proof fn lemma_object_size(k: u8)
    requires
        9 <= k <= 31,
    ensures
        512 <= size_of_shift(k) <= 0x8000_0000,
        size_of_shift(k) % 512 == 0,
{
    use_pow2_table();
    vstd::arithmetic::power2::lemma_pow2_adds(9, (k - 9) as nat);
    vstd::arithmetic::power2::lemma_pow2_pos((k - 9) as nat);
    let a = vstd::arithmetic::power2::pow2((k - 9) as nat);
    assert(size_of_shift(k) == 512 * a);
    assert((512 * a) % 512 == 0);
    if k < 31 {
        vstd::arithmetic::power2::lemma_pow2_strictly_increases(k as nat, 31);
    }
}

proof fn use_pow2_table()
    ensures
        vstd::arithmetic::power2::pow2(9) == 512,
        vstd::arithmetic::power2::pow2(31) == 0x8000_0000,
{
    vstd::arithmetic::power2::lemma2_to64();
}

proof fn lemma_div_ceil(n: int, d: int)
    requires
        n > 0,
        d > 0,
    ensures
        (n + d - 1) / d == n / d + if n % d == 0 {
            0int
        } else {
            1
        },
{
    let q = n / d;
    let r = n % d;
    vstd::arithmetic::div_mod::lemma_fundamental_div_mod(n, d);
    vstd::arithmetic::div_mod::lemma_mod_bound(n, d);
    if r == 0 {
        assert(n + d - 1 == d * q + (d - 1));
        vstd::arithmetic::div_mod::lemma_fundamental_div_mod_converse(n + d - 1, d, q, d - 1);
    } else {
        assert(n + d - 1 == d * (q + 1) + (r - 1)) by (nonlinear_arith)
            requires
                n == d * q + r,
        ;
        vstd::arithmetic::div_mod::lemma_fundamental_div_mod_converse(n + d - 1, d, q + 1, r - 1);
    }
}

/// A volume as its data path needs it.
#[derive(Debug)]
pub struct Volume {
    /// The (writable head) VDI id.
    pub vid: u32,
    /// Data-object size in bytes.
    pub object_size: u32,
    /// Replication factor to request on object writes.
    pub nr_copies: u8,
    /// Size in 512-byte blocks.
    pub nr_blocks: u64,
    /// True for a snapshot (writes rejected).
    pub read_only: bool,
    /// `data_vdi_id[]`: object index → owning vid (`0` hole, [`VID_INFLIGHT`]
    /// while the entry is being changed).
    pub data_map: Vec<u32>,
}

/// A volume, as its shape and map.
pub struct Vol {
    /// VDI id.
    pub vid: u32,
    /// Object size.
    pub obj: nat,
    /// Read-only.
    pub read_only: bool,
    /// Object map.
    pub map: Seq<u32>,
}

impl View for Volume {
    type V = Vol;

    open spec fn view(&self) -> Vol {
        Vol {
            vid: self.vid,
            obj: self.object_size as nat,
            read_only: self.read_only,
            map: self.data_map@,
        }
    }
}

/// A part of a transfer that lies in one object.
#[derive(Debug, Clone, Copy, PartialEq, Eq, Structural)]
pub struct Piece {
    /// Object index.
    pub idx: u64,
    /// Where in the object it starts.
    pub in_obj: u64,
    /// Where in the buffer it starts.
    pub from: usize,
    /// Bytes.
    pub len: usize,
}

/// The payload of an object request.
#[derive(Debug, Clone, Copy, PartialEq, Eq, Structural)]
pub enum Data {
    /// None.
    Nothing,
    /// Bytes of the caller's buffer, to be sent.
    From {
        /// Start.
        from: usize,
        /// Bytes.
        len: usize,
    },
    /// Bytes of the caller's buffer, to be filled.
    Into {
        /// Start.
        from: usize,
        /// Bytes.
        len: usize,
    },
    /// Zeroes.
    Zeroes {
        /// Bytes.
        len: usize,
    },
    /// An object map entry.
    Entry {
        /// The vid it names.
        vid: u32,
    },
}

/// One object request.
#[derive(Debug, Clone, Copy, PartialEq, Eq, Structural)]
pub struct ObjRequest {
    /// Opcode.
    pub opcode: u8,
    /// Flags.
    pub flags: u16,
    /// The object.
    pub oid: u64,
    /// The object it is copied from.
    pub cow_oid: u64,
    /// Where in the object.
    pub offset: u64,
    /// The payload.
    pub data: Data,
}

/// Bytes of a request's payload.
pub open spec fn data_len(d: Data) -> nat {
    match d {
        Data::Nothing => 0,
        Data::From { len, .. } => len as nat,
        Data::Into { len, .. } => len as nat,
        Data::Zeroes { len } => len as nat,
        Data::Entry { .. } => 4,
    }
}

impl ObjRequest {
    /// The request's header, but for the id: the connection picks it. `Err`
    /// for a payload whose length does not fit the header's field.
    pub fn header(&self, copies: u8) -> (r: Result<[u8; 48], BackendError>)
        ensures
            match r {
                Ok(h) => data_len(self.data) <= u32::MAX && h@ == wire::obj_req(
                    self.opcode,
                    self.flags,
                    0,
                    data_len(self.data) as u32,
                    self.oid,
                    self.cow_oid,
                    copies,
                    self.offset,
                ),
                Err(e) => data_len(self.data) > u32::MAX && e == BackendError::Io(wire::EINVAL),
            },
    {
        let len: usize = match self.data {
            Data::Nothing => 0,
            Data::From { len, .. } => len,
            Data::Into { len, .. } => len,
            Data::Zeroes { len } => len,
            Data::Entry { .. } => 4,
        };
        if len as u64 > u32::MAX as u64 {
            return Err(BackendError::Io(wire::EINVAL));
        }
        let mut hdr = blank_header();
        encode_obj_req(
            &mut hdr,
            self.opcode,
            self.flags,
            0,
            len as u32,
            self.oid,
            self.cow_oid,
            copies,
            self.offset,
        );
        Ok(hdr)
    }
}

/// Read a piece of object `idx` of owner `vid`.
pub open spec fn read_req(vid: u32, p: Piece) -> ObjRequest {
    ObjRequest {
        opcode: SD_OP_READ_OBJ,
        flags: 0,
        oid: wire::data_oid(vid, p.idx),
        cow_oid: 0,
        offset: p.in_obj,
        data: Data::Into { from: p.from, len: p.len },
    }
}

/// Overwrite a piece of an object we own.
pub open spec fn write_req(vid: u32, p: Piece, data: Data) -> ObjRequest {
    ObjRequest {
        opcode: SD_OP_WRITE_OBJ,
        flags: SD_FLAG_CMD_WRITE | SD_FLAG_CMD_DIRECT,
        oid: wire::data_oid(vid, p.idx),
        cow_oid: 0,
        offset: p.in_obj,
        data,
    }
}

/// Create an object with a piece of it, copied from its owner's where there is
/// one.
pub open spec fn create_req(vid: u32, owner: u32, p: Piece, data: Data) -> ObjRequest {
    ObjRequest {
        opcode: SD_OP_CREATE_AND_WRITE_OBJ,
        flags: if owner == 0 {
            SD_FLAG_CMD_WRITE | SD_FLAG_CMD_DIRECT
        } else {
            SD_FLAG_CMD_WRITE | SD_FLAG_CMD_DIRECT | SD_FLAG_CMD_COW
        },
        oid: wire::data_oid(vid, p.idx),
        cow_oid: if owner == 0 {
            0
        } else {
            wire::data_oid(owner, p.idx)
        },
        offset: p.in_obj,
        data,
    }
}

/// Persist the map entry of object `idx`: the vid at the slot's offset within
/// the inode's `data_vdi_id[]`.
pub open spec fn persist_req(vid: u32, idx: u64) -> ObjRequest {
    ObjRequest {
        opcode: SD_OP_WRITE_OBJ,
        flags: SD_FLAG_CMD_WRITE | SD_FLAG_CMD_DIRECT,
        oid: wire::vdi_oid(vid),
        cow_oid: 0,
        offset: (4664 + idx * 4) as u64,
        data: Data::Entry { vid },
    }
}

/// Deallocate object `idx`; the cluster clears its map entry.
pub open spec fn discard_req(vid: u32, idx: u64) -> ObjRequest {
    ObjRequest {
        opcode: SD_OP_DISCARD_OBJ,
        flags: 0,
        oid: wire::data_oid(vid, idx),
        cow_oid: 0,
        offset: 0,
        data: Data::Nothing,
    }
}

/// The next piece of a transfer from `off` on, `len` bytes of which `done` are
/// done: to the end of the object, or of the transfer.
pub open spec fn next_piece(obj: nat, off: u64, len: usize, done: usize) -> Piece {
    let at = off + done;
    let in_obj = at % obj as int;
    let room = obj - in_obj;
    Piece {
        idx: (at / obj as int) as u64,
        in_obj: in_obj as u64,
        from: done,
        len: if len - done < room {
            (len - done) as usize
        } else {
            room as usize
        },
    }
}

impl Volume {
    /// Objects are of a size the inode can say, and every block's bytes count
    /// in 64 bits.
    pub open spec fn wf(&self) -> bool {
        &&& 512 <= self.object_size <= 0x8000_0000
        &&& self.object_size % 512 == 0
        &&& self.nr_blocks <= 0x7f_ffff_ffff_ffff
        &&& self.data_map@.len() <= 0x10_0000
    }

    /// A volume of `shape` and its object map.
    pub fn new(vid: u32, shape: Shape, data_map: Vec<u32>) -> (r: Volume)
        requires
            512 <= shape.object_size <= 0x8000_0000,
            shape.object_size % 512 == 0,
            shape.nr_blocks <= 0x7f_ffff_ffff_ffff,
            data_map@.len() <= 0x10_0000,
        ensures
            r.wf(),
            r.vid == vid,
            r.object_size == shape.object_size,
            r.nr_copies == shape.nr_copies,
            r.nr_blocks == shape.nr_blocks,
            r.read_only == shape.read_only,
            r.data_map == data_map,
    {
        Volume {
            vid,
            object_size: shape.object_size,
            nr_copies: shape.nr_copies,
            nr_blocks: shape.nr_blocks,
            read_only: shape.read_only,
            data_map,
        }
    }

    /// log2 of the logical block size.
    pub fn block_shift(&self) -> (r: u8)
        ensures
            r == 9,
    {
        BLOCK_SHIFT
    }

    /// Size in logical blocks.
    pub fn nr_blocks(&self) -> (r: u64)
        ensures
            r == self.nr_blocks,
    {
        self.nr_blocks
    }

    /// The object size in logical blocks: the boundary IO had better not
    /// cross, and the granule of a discard.
    pub fn io_boundary(&self) -> (r: u32)
        ensures
            r == self.object_size / 512,
    {
        self.object_size / 512
    }

    /// The owner of object `idx`.
    fn map_load(&self, idx: u64) -> (r: Result<u32, BackendError>)
        ensures
            match r {
                Ok(v) => idx < self.data_map@.len() && v == self.data_map@[idx as int],
                Err(e) => idx >= self.data_map@.len() && e == BackendError::OutOfRange,
            },
    {
        if idx < self.data_map.len() as u64 {
            Ok(self.data_map[idx as usize])
        } else {
            Err(BackendError::OutOfRange)
        }
    }

    /// The next piece of a transfer.
    fn piece(&self, off: u64, len: usize, done: usize) -> (r: Piece)
        requires
            self.wf(),
            done < len,
            off + len <= u64::MAX,
        ensures
            r == next_piece(self.object_size as nat, off, len, done),
            0 < r.len <= len - done,
            r.in_obj + r.len <= self.object_size,
            r.from == done,
    {
        let obj: u64 = self.object_size as u64;
        let at: u64 = off + done as u64;
        let in_obj: u64 = at % obj;
        let room: u64 = obj - in_obj;
        let left: usize = len - done;
        let n: usize = if (left as u64) < room {
            left
        } else {
            room as usize
        };
        Piece { idx: at / obj, in_obj, from: done, len: n }
    }
}

/// The answer to a transfer request that its range alone gives.
pub open spec fn transfer_answer(blocks: u64, slba: u64, len: nat) -> Result<(), BackendError> {
    backend::range_answer(blocks, slba, (len / 512) as u64)
}

/// Where a block starts, if the transfer from it on is in range.
fn start_of(blocks: u64, slba: u64, len: usize) -> (r: Result<u64, BackendError>)
    requires
        blocks <= 0x7f_ffff_ffff_ffff,
    ensures
        match r {
            Ok(off) => {
                &&& transfer_answer(blocks, slba, len as nat) is Ok
                &&& off == slba * 512
                &&& off + len <= u64::MAX
            },
            Err(e) => transfer_answer(blocks, slba, len as nat) == Err::<(), BackendError>(e),
        },
{
    match check_blocks(blocks, slba, len as u64 / 512) {
        Ok(()) => Ok(slba * 512),
        Err(e) => Err(e),
    }
}

// ---------------------------------------------------------------------------
// Reading
// ---------------------------------------------------------------------------

/// A read under way.
#[derive(Debug, Clone, Copy, PartialEq, Eq, Structural)]
pub struct ReadTask {
    /// First byte.
    pub off: u64,
    /// Bytes.
    pub len: usize,
    /// Bytes done.
    pub done: usize,
    /// Bytes of the piece that is being read.
    pub pending: usize,
}

/// What a read does next.
#[derive(Debug, Clone, Copy, PartialEq, Eq)]
pub enum ReadStep {
    /// Fill the piece with zeroes: its object is a hole.
    Zero(Piece),
    /// Read the piece.
    Fetch(ObjRequest, Piece),
    /// The read is over.
    Finish(Result<(), BackendError>),
}

/// What a read does next, after its last piece went as `last` says.
pub open spec fn read_next(
    v: Vol,
    t: ReadTask,
    last: Result<(), BackendError>,
) -> (ReadTask, ReadStep) {
    match last {
        Err(e) => (t, ReadStep::Finish(Err(e))),
        Ok(_) => {
            let done = (t.done + t.pending) as usize;
            let p = next_piece(v.obj, t.off, t.len, done);
            if done >= t.len {
                (ReadTask { done, pending: 0, ..t }, ReadStep::Finish(Ok(())))
            } else if p.idx >= v.map.len() {
                (
                    ReadTask { done, pending: 0, ..t },
                    ReadStep::Finish(Err(BackendError::OutOfRange)),
                )
            } else {
                let owner = v.map[p.idx as int];
                (
                    ReadTask { done, pending: p.len, ..t },
                    if owner == 0 || owner == VID_INFLIGHT {
                        ReadStep::Zero(p)
                    } else {
                        ReadStep::Fetch(read_req(owner, p), p)
                    },
                )
            }
        },
    }
}

impl ReadTask {
    /// The transfer counts in 64 bits, and what is done is part of it.
    pub open spec fn wf(&self) -> bool {
        self.off + self.len <= u64::MAX && self.done + self.pending <= self.len
    }

    /// A read of `len` bytes from block `slba` on.
    pub fn start(vol: &Volume, slba: u64, len: usize) -> (r: Result<ReadTask, BackendError>)
        requires
            vol.wf(),
        ensures
            match r {
                Ok(t) => {
                    &&& transfer_answer(vol.nr_blocks, slba, len as nat) is Ok
                    &&& t == (ReadTask { off: (slba * 512) as u64, len, done: 0, pending: 0 })
                    &&& t.wf()
                },
                Err(e) => transfer_answer(vol.nr_blocks, slba, len as nat) == Err::<
                    (),
                    BackendError,
                >(e),
            },
    {
        match start_of(vol.nr_blocks, slba, len) {
            Ok(off) => Ok(ReadTask { off, len, done: 0, pending: 0 }),
            Err(e) => Err(e),
        }
    }

    /// Go on: `last` is how the piece asked for last went (`Ok` at first).
    pub fn step(&mut self, vol: &Volume, last: Result<(), BackendError>) -> (r: ReadStep)
        requires
            vol.wf(),
            old(self).wf(),
        ensures
            final(self).wf(),
            (*final(self), r) == read_next(vol@, *old(self), last),
    {
        match last {
            Err(e) => ReadStep::Finish(Err(e)),
            Ok(()) => {
                self.done = self.done + self.pending;
                self.pending = 0;
                if self.done >= self.len {
                    return ReadStep::Finish(Ok(()));
                }
                let p = vol.piece(self.off, self.len, self.done);
                match vol.map_load(p.idx) {
                    Err(e) => ReadStep::Finish(Err(e)),
                    Ok(owner) => {
                        self.pending = p.len;
                        if owner == 0 || owner == VID_INFLIGHT {
                            ReadStep::Zero(p)
                        } else {
                            ReadStep::Fetch(
                                ObjRequest {
                                    opcode: SD_OP_READ_OBJ,
                                    flags: 0,
                                    oid: vid_to_data_oid(owner, p.idx),
                                    cow_oid: 0,
                                    offset: p.in_obj,
                                    data: Data::Into { from: p.from, len: p.len },
                                },
                                p,
                            )
                        }
                    },
                }
            },
        }
    }
}

// ---------------------------------------------------------------------------
// Writing
// ---------------------------------------------------------------------------

/// What a write is waiting for.
#[derive(Debug, Clone, Copy, PartialEq, Eq, Structural)]
pub enum Phase {
    /// Nothing: its next piece is to be begun.
    Ready,
    /// An overwrite of `len` bytes.
    Overwriting {
        /// Bytes.
        len: usize,
    },
    /// The creation of object `idx`, whose map entry was `prior`.
    Creating {
        /// Bytes.
        len: usize,
        /// Object.
        idx: u64,
        /// Its owner before.
        prior: u32,
    },
    /// The new map entry of object `idx`.
    Persisting {
        /// Bytes.
        len: usize,
        /// Object.
        idx: u64,
        /// Its owner before.
        prior: u32,
    },
    /// The deallocation of object `idx`, whose map entry was `prior`.
    Discarding {
        /// Bytes.
        len: usize,
        /// Object.
        idx: u64,
        /// Its owner before.
        prior: u32,
    },
    /// It is over.
    Over,
}

/// A write, or a write of zeroes, under way.
#[derive(Debug, Clone, Copy, PartialEq, Eq, Structural)]
pub struct WriteTask {
    /// First byte.
    pub off: u64,
    /// Bytes.
    pub len: usize,
    /// Bytes done.
    pub done: usize,
    /// Zeroes rather than the caller's buffer.
    pub zeroes: bool,
    /// What it is waiting for.
    pub phase: Phase,
}

/// What a write does next.
#[derive(Debug, Clone, Copy, PartialEq, Eq)]
pub enum WriteStep {
    /// Send the request.
    Send(ObjRequest),
    /// Another transfer is changing the object: try again shortly.
    Wait,
    /// The write is over.
    Finish(Result<(), BackendError>),
}

/// `v` with object `idx` owned by `owner`.
pub open spec fn owned_by(v: Vol, idx: u64, owner: u32) -> Vol {
    Vol { map: v.map.update(idx as int, owner), ..v }
}

/// The payload of a piece.
pub open spec fn piece_data(t: WriteTask, p: Piece) -> Data {
    if t.zeroes {
        Data::Zeroes { len: p.len }
    } else {
        Data::From { from: p.from, len: p.len }
    }
}

/// What a write does to begin its next piece.
pub open spec fn write_begin(v: Vol, t: WriteTask) -> (Vol, WriteTask, WriteStep) {
    let p = next_piece(v.obj, t.off, t.len, t.done);
    if t.done >= t.len {
        (v, WriteTask { phase: Phase::Over, ..t }, WriteStep::Finish(Ok(())))
    } else if p.idx >= v.map.len() {
        (
            v,
            WriteTask { phase: Phase::Over, ..t },
            WriteStep::Finish(Err(BackendError::OutOfRange)),
        )
    } else {
        let owner = v.map[p.idx as int];
        if owner == VID_INFLIGHT {
            (v, WriteTask { phase: Phase::Ready, ..t }, WriteStep::Wait)
        } else if t.zeroes && p.len == v.obj {
            (
                owned_by(v, p.idx, VID_INFLIGHT),
                WriteTask {
                    phase: Phase::Discarding { len: p.len, idx: p.idx, prior: owner },
                    ..t
                },
                WriteStep::Send(discard_req(v.vid, p.idx)),
            )
        } else if owner == v.vid {
            (
                v,
                WriteTask { phase: Phase::Overwriting { len: p.len }, ..t },
                WriteStep::Send(write_req(v.vid, p, piece_data(t, p))),
            )
        } else {
            (
                owned_by(v, p.idx, VID_INFLIGHT),
                WriteTask {
                    phase: Phase::Creating { len: p.len, idx: p.idx, prior: owner },
                    ..t
                },
                WriteStep::Send(create_req(v.vid, owner, p, piece_data(t, p))),
            )
        }
    }
}

/// What a write does next, after what it was waiting for went as `last` says:
/// a failed change of the map is taken back.
pub open spec fn write_next(v: Vol, t: WriteTask, last: Result<(), BackendError>) -> (
    Vol,
    WriteTask,
    WriteStep,
) {
    let over = WriteTask { phase: Phase::Over, ..t };
    match t.phase {
        Phase::Ready => write_begin(v, t),
        Phase::Over => (v, t, WriteStep::Finish(Ok(()))),
        Phase::Overwriting { len } => match last {
            Err(e) => (v, over, WriteStep::Finish(Err(e))),
            Ok(_) => write_begin(v, WriteTask { done: (t.done + len) as usize, ..t }),
        },
        Phase::Creating { len, idx, prior } => match last {
            Err(e) => (owned_by(v, idx, prior), over, WriteStep::Finish(Err(e))),
            Ok(_) => (
                v,
                WriteTask { phase: Phase::Persisting { len, idx, prior }, ..t },
                WriteStep::Send(persist_req(v.vid, idx)),
            ),
        },
        Phase::Persisting { len, idx, prior } => match last {
            Err(e) => (owned_by(v, idx, prior), over, WriteStep::Finish(Err(e))),
            Ok(_) => write_begin(
                owned_by(v, idx, v.vid),
                WriteTask { done: (t.done + len) as usize, ..t },
            ),
        },
        Phase::Discarding { len, idx, prior } => match last {
            Err(e) => (owned_by(v, idx, prior), over, WriteStep::Finish(Err(e))),
            Ok(_) => write_begin(
                owned_by(v, idx, 0),
                WriteTask { done: (t.done + len) as usize, ..t },
            ),
        },
    }
}

/// Bytes a phase is waiting for.
pub open spec fn phase_len(p: Phase) -> nat {
    match p {
        Phase::Ready => 0,
        Phase::Over => 0,
        Phase::Overwriting { len } => len as nat,
        Phase::Creating { len, .. } => len as nat,
        Phase::Persisting { len, .. } => len as nat,
        Phase::Discarding { len, .. } => len as nat,
    }
}

/// The object a phase has marked in the map.
pub open spec fn phase_idx(p: Phase) -> Option<u64> {
    match p {
        Phase::Creating { idx, .. } => Some(idx),
        Phase::Persisting { idx, .. } => Some(idx),
        Phase::Discarding { idx, .. } => Some(idx),
        _ => None,
    }
}

impl WriteTask {
    /// The transfer counts in 64 bits, what is done is part of it, and the
    /// object it has marked is in the map.
    pub open spec fn wf(&self, map_len: nat) -> bool {
        &&& self.off + self.len <= u64::MAX
        &&& self.done + phase_len(self.phase) <= self.len
        &&& phase_idx(self.phase) matches Some(i) ==> i < map_len
    }

    /// A write of `len` bytes from block `slba` on.
    pub fn start(vol: &Volume, slba: u64, len: usize) -> (r: Result<WriteTask, BackendError>)
        requires
            vol.wf(),
        ensures
            match r {
                Ok(t) => {
                    &&& !vol.read_only
                    &&& transfer_answer(vol.nr_blocks, slba, len as nat) is Ok
                    &&& t == (WriteTask {
                        off: (slba * 512) as u64,
                        len,
                        done: 0,
                        zeroes: false,
                        phase: Phase::Ready,
                    })
                    &&& t.wf(vol.data_map@.len())
                },
                Err(e) => if vol.read_only {
                    e == BackendError::Unsupported
                } else {
                    transfer_answer(vol.nr_blocks, slba, len as nat) == Err::<(), BackendError>(e)
                },
            },
    {
        if vol.read_only {
            return Err(BackendError::Unsupported);
        }
        match start_of(vol.nr_blocks, slba, len) {
            Ok(off) => Ok(
                WriteTask { off, len, done: 0, zeroes: false, phase: Phase::Ready },
            ),
            Err(e) => Err(e),
        }
    }

    /// A write of zeroes over `range`.
    pub fn start_zeroes(vol: &Volume, range: LbaRange) -> (r: Result<WriteTask, BackendError>)
        requires
            vol.wf(),
            range.nlb * 512 <= usize::MAX,
        ensures
            match r {
                Ok(t) => {
                    &&& !vol.read_only
                    &&& backend::in_range(vol.nr_blocks, range.slba, range.nlb as u64)
                    &&& t == (WriteTask {
                        off: (range.slba * 512) as u64,
                        len: (range.nlb * 512) as usize,
                        done: 0,
                        zeroes: true,
                        phase: Phase::Ready,
                    })
                    &&& t.wf(vol.data_map@.len())
                },
                Err(e) => if vol.read_only {
                    e == BackendError::Unsupported
                } else {
                    !backend::in_range(vol.nr_blocks, range.slba, range.nlb as u64) && e
                        == BackendError::OutOfRange
                },
            },
    {
        if vol.read_only {
            return Err(BackendError::Unsupported);
        }
        match check_blocks(vol.nr_blocks, range.slba, range.nlb as u64) {
            Ok(()) => Ok(
                WriteTask {
                    off: range.slba * 512,
                    len: range.nlb as usize * 512,
                    done: 0,
                    zeroes: true,
                    phase: Phase::Ready,
                },
            ),
            Err(e) => Err(e),
        }
    }

    /// Begin the next piece.
    fn begin(&mut self, vol: &mut Volume) -> (r: WriteStep)
        requires
            old(vol).wf(),
            old(self).off + old(self).len <= u64::MAX,
            old(self).done <= old(self).len,
        ensures
            final(vol).wf(),
            final(self).wf(final(vol).data_map@.len()),
            (final(vol)@, *final(self), r) == write_begin(old(vol)@, *old(self)),
            final(vol).nr_blocks == old(vol).nr_blocks,
            final(vol).nr_copies == old(vol).nr_copies,
    {
        if self.done >= self.len {
            self.phase = Phase::Over;
            return WriteStep::Finish(Ok(()));
        }
        let p = vol.piece(self.off, self.len, self.done);
        let owner: u32 = match vol.map_load(p.idx) {
            Err(e) => {
                self.phase = Phase::Over;
                return WriteStep::Finish(Err(e));
            },
            Ok(v) => v,
        };
        let vid: u32 = vol.vid;
        if owner == VID_INFLIGHT {
            self.phase = Phase::Ready;
            return WriteStep::Wait;
        }
        if self.zeroes && p.len as u64 == vol.object_size as u64 {
            vol.data_map[p.idx as usize] = VID_INFLIGHT;
            self.phase = Phase::Discarding { len: p.len, idx: p.idx, prior: owner };
            return WriteStep::Send(
                ObjRequest {
                    opcode: SD_OP_DISCARD_OBJ,
                    flags: 0,
                    oid: vid_to_data_oid(vid, p.idx),
                    cow_oid: 0,
                    offset: 0,
                    data: Data::Nothing,
                },
            );
        }
        let data = if self.zeroes {
            Data::Zeroes { len: p.len }
        } else {
            Data::From { from: p.from, len: p.len }
        };
        if owner == vid {
            // Fast path: overwrite an object we already own.
            self.phase = Phase::Overwriting { len: p.len };
            return WriteStep::Send(
                ObjRequest {
                    opcode: SD_OP_WRITE_OBJ,
                    flags: SD_FLAG_CMD_WRITE | SD_FLAG_CMD_DIRECT,
                    oid: vid_to_data_oid(vid, p.idx),
                    cow_oid: 0,
                    offset: p.in_obj,
                    data,
                },
            );
        }
        // A hole, or a parent's object (snapshot → copy-on-write).
        vol.data_map[p.idx as usize] = VID_INFLIGHT;
        self.phase = Phase::Creating { len: p.len, idx: p.idx, prior: owner };
        let (flags, cow_oid): (u16, u64) = if owner == 0 {
            (SD_FLAG_CMD_WRITE | SD_FLAG_CMD_DIRECT, 0)
        } else {
            (
                SD_FLAG_CMD_WRITE | SD_FLAG_CMD_DIRECT | SD_FLAG_CMD_COW,
                vid_to_data_oid(owner, p.idx),
            )
        };
        WriteStep::Send(
            ObjRequest {
                opcode: SD_OP_CREATE_AND_WRITE_OBJ,
                flags,
                oid: vid_to_data_oid(vid, p.idx),
                cow_oid,
                offset: p.in_obj,
                data,
            },
        )
    }

    /// Go on: `last` is how what was asked for last went (`Ok` at first, and
    /// after a wait).
    pub fn step(&mut self, vol: &mut Volume, last: Result<(), BackendError>) -> (r: WriteStep)
        requires
            old(vol).wf(),
            old(self).wf(old(vol).data_map@.len()),
        ensures
            final(vol).wf(),
            final(self).wf(final(vol).data_map@.len()),
            (final(vol)@, *final(self), r) == write_next(old(vol)@, *old(self), last),
            final(vol).nr_blocks == old(vol).nr_blocks,
            final(vol).nr_copies == old(vol).nr_copies,
    {
        match self.phase {
            Phase::Ready => self.begin(vol),
            Phase::Over => WriteStep::Finish(Ok(())),
            Phase::Overwriting { len } => match last {
                Err(e) => {
                    self.phase = Phase::Over;
                    WriteStep::Finish(Err(e))
                },
                Ok(()) => {
                    self.done = self.done + len;
                    self.begin(vol)
                },
            },
            Phase::Creating { len, idx, prior } => match last {
                Err(e) => {
                    vol.data_map[idx as usize] = prior;
                    self.phase = Phase::Over;
                    WriteStep::Finish(Err(e))
                },
                Ok(()) => {
                    self.phase = Phase::Persisting { len, idx, prior };
                    WriteStep::Send(
                        ObjRequest {
                            opcode: SD_OP_WRITE_OBJ,
                            flags: SD_FLAG_CMD_WRITE | SD_FLAG_CMD_DIRECT,
                            oid: vid_to_vdi_oid(vol.vid),
                            cow_oid: 0,
                            offset: SD_INODE_HEADER_SIZE + idx * 4,
                            data: Data::Entry { vid: vol.vid },
                        },
                    )
                },
            },
            Phase::Persisting { len, idx, prior } => match last {
                Err(e) => {
                    vol.data_map[idx as usize] = prior;
                    self.phase = Phase::Over;
                    WriteStep::Finish(Err(e))
                },
                Ok(()) => {
                    vol.data_map[idx as usize] = vol.vid;
                    self.done = self.done + len;
                    self.begin(vol)
                },
            },
            Phase::Discarding { len, idx, prior } => match last {
                Err(e) => {
                    vol.data_map[idx as usize] = prior;
                    self.phase = Phase::Over;
                    WriteStep::Finish(Err(e))
                },
                Ok(()) => {
                    vol.data_map[idx as usize] = 0;
                    self.done = self.done + len;
                    self.begin(vol)
                },
            },
        }
    }
}

// ---------------------------------------------------------------------------
// Discarding
// ---------------------------------------------------------------------------

/// Whether `range` is exactly one whole object.
pub open spec fn one_object(obj: nat, range: LbaRange) -> bool {
    range.slba * 512 % obj as int == 0 && range.nlb * 512 == obj
}

/// The refusal of a batch of ranges: the first that is beyond the device or
/// not one whole object, if any.
pub open spec fn discard_fault(v: Vol, blocks: u64, ranges: Seq<LbaRange>, k: int) -> Option<
    BackendError,
>
    decreases ranges.len() - k,
{
    if k < 0 || k >= ranges.len() {
        None
    } else if !backend::in_range(blocks, ranges[k].slba, ranges[k].nlb as u64) {
        Some(BackendError::OutOfRange)
    } else if !one_object(v.obj, ranges[k]) {
        Some(BackendError::Unsupported)
    } else {
        discard_fault(v, blocks, ranges, k + 1)
    }
}

impl Volume {
    /// The writes of zeroes that deallocate `ranges` (DSM Deallocate) — each
    /// exactly one whole object, so that no zero-fill is ever called for. The
    /// whole batch is looked at before any of it is touched.
    pub fn discard(&self, ranges: &[LbaRange]) -> (r: Result<Vec<WriteTask>, BackendError>)
        requires
            self.wf(),
        ensures
            match r {
                Ok(v) => {
                    &&& !self.read_only
                    &&& discard_fault(self@, self.nr_blocks, ranges@, 0) is None
                    &&& v@.len() == ranges@.len()
                    &&& forall|k: int|
                        0 <= k < ranges@.len() ==> {
                            &&& (#[trigger] v@[k]) == (WriteTask {
                                off: (ranges@[k].slba * 512) as u64,
                                len: self.object_size as usize,
                                done: 0,
                                zeroes: true,
                                phase: Phase::Ready,
                            })
                            &&& v@[k].wf(self.data_map@.len())
                            &&& one_object(self.object_size as nat, ranges@[k])
                        }
                },
                Err(e) => if self.read_only {
                    e == BackendError::Unsupported
                } else {
                    discard_fault(self@, self.nr_blocks, ranges@, 0) == Some(e)
                },
            },
    {
        if self.read_only {
            return Err(BackendError::Unsupported);
        }
        let n: usize = ranges.len();
        let obj: u64 = self.object_size as u64;
        let mut v: Vec<WriteTask> = Vec::new();
        let mut k: usize = 0;
        while k < n
            invariant
                k <= n == ranges@.len(),
                self.wf(),
                !self.read_only,
                obj == self.object_size,
                v@.len() == k,
                discard_fault(self@, self.nr_blocks, ranges@, 0) == discard_fault(
                    self@,
                    self.nr_blocks,
                    ranges@,
                    k as int,
                ),
                forall|j: int|
                    0 <= j < k ==> {
                        &&& (#[trigger] v@[j]) == (WriteTask {
                            off: (ranges@[j].slba * 512) as u64,
                            len: self.object_size as usize,
                            done: 0,
                            zeroes: true,
                            phase: Phase::Ready,
                        })
                        &&& v@[j].wf(self.data_map@.len())
                        &&& one_object(self.object_size as nat, ranges@[j])
                    },
            decreases n - k,
        {
            let range: LbaRange = ranges[k];
            match check_blocks(self.nr_blocks, range.slba, range.nlb as u64) {
                Err(e) => {
                    return Err(e);
                },
                Ok(()) => {},
            }
            let at: u64 = range.slba * 512;
            if at % obj != 0 || range.nlb as u64 * 512 != obj {
                return Err(BackendError::Unsupported);
            }
            v.push(
                WriteTask {
                    off: at,
                    len: self.object_size as usize,
                    done: 0,
                    zeroes: true,
                    phase: Phase::Ready,
                },
            );
            k = k + 1;
        }
        Ok(v)
    }
}

} // verus!
