//! What a volume holds: the bytes its object map and the cluster's objects add
//! up to, and what reads and writes do to them.
//!
//! The steps of [`crate::sheepdog::volume`] say which requests go out. Here a
//! cluster that serves each of them is put behind those steps, and a transfer
//! that runs by itself to its end is followed through.

use vstd::prelude::*;

use crate::backend::BackendError;
use crate::bytes;
use crate::sheepdog::volume;
use crate::sheepdog::volume::{
    Data, ObjRequest, Phase, Piece, ReadStep, ReadTask, Vol, WriteStep, WriteTask,
};
use crate::sheepdog::wire;
use crate::sheepdog::wire::{
    SD_NR_VDIS, SD_OP_CREATE_AND_WRITE_OBJ, SD_OP_DISCARD_OBJ, SD_OP_READ_OBJ, SD_OP_WRITE_OBJ,
    VID_INFLIGHT,
};

verus! {

/// The bytes of a request's payload, from the caller's buffer.
pub open spec fn payload(d: Data, buf: Seq<u8>) -> Seq<u8> {
    match d {
        Data::Nothing => Seq::empty(),
        Data::From { from, len } => buf.subrange(from as int, from + len),
        Data::Into { from, len } => Seq::empty(),
        Data::Zeroes { len } => bytes::zeroes(len as nat),
        Data::Entry { vid } => bytes::le(vid as nat, 4),
    }
}

/// Whether a request with these flags brings its payload along.
pub open spec fn brings_payload(flags: u16) -> bool {
    flags % 2 == 1
}

/// Whether a request with these flags has an object copied first.
pub open spec fn copies_first(flags: u16) -> bool {
    flags / 2 % 2 == 1
}

/// Whether a request with these flags goes past the object cache.
pub open spec fn past_cache(flags: u16) -> bool {
    flags / 8 % 2 == 1
}

/// The inode of the volume that data object `oid` is of.
pub open spec fn inode_of(oid: u64) -> u64 {
    (0x8000_0000_0000_0000 + oid as int / 0x1_0000_0000 * 0x1_0000_0000) as u64
}

/// Where in that inode the object's map entry is.
pub open spec fn entry_at(oid: u64) -> int {
    4664 + oid as int % 0x1_0000_0000 * 4
}

/// The cluster's objects once it has served `req`: a write changes the bytes it
/// covers; a create starts from the object it names, where its flags have that
/// copied first, and from zeroes otherwise; a discard takes the object away and
/// clears its map entry. Only a request that brings its payload along changes
/// bytes.
pub open spec fn served(
    cl: Map<u64, Seq<u8>>,
    req: ObjRequest,
    data: Seq<u8>,
    obj: nat,
) -> Map<u64, Seq<u8>> {
    let sent = if brings_payload(req.flags) {
        data
    } else {
        Seq::empty()
    };
    if req.opcode == SD_OP_WRITE_OBJ {
        cl.insert(req.oid, bytes::overwritten(cl[req.oid], req.offset as int, sent))
    } else if req.opcode == SD_OP_CREATE_AND_WRITE_OBJ {
        let base = if copies_first(req.flags) {
            cl[req.cow_oid]
        } else {
            bytes::zeroes(obj)
        };
        cl.insert(req.oid, bytes::overwritten(base, req.offset as int, sent))
    } else if req.opcode == SD_OP_DISCARD_OBJ {
        let ino = inode_of(req.oid);
        cl.remove(req.oid).insert(
            ino,
            bytes::overwritten(cl[ino], entry_at(req.oid), bytes::zeroes(4)),
        )
    } else {
        cl
    }
}

/// Whether the volume's inode says what its object map says.
pub open spec fn inode_holds(v: Vol, cl: Map<u64, Seq<u8>>) -> bool {
    let ino = cl[wire::vdi_oid(v.vid)];
    &&& cl.dom().contains(wire::vdi_oid(v.vid))
    &&& 4664 + 4 * v.map.len() <= ino.len()
    &&& forall|i: int|
        0 <= i < v.map.len() ==> bytes::le_value(ino.subrange(4664 + 4 * i, 4664 + 4 * i + 4))
            == #[trigger] v.map[i]
}

/// What the flags of the requests come to.
proof fn lemma_flags()
    ensures
        wire::SD_FLAG_CMD_WRITE | wire::SD_FLAG_CMD_DIRECT == 9,
        wire::SD_FLAG_CMD_WRITE | wire::SD_FLAG_CMD_DIRECT | wire::SD_FLAG_CMD_COW == 11,
{
    assert(0x01u16 | 0x08u16 == 9u16) by (bit_vector);
    assert(0x01u16 | 0x08u16 | 0x02u16 == 11u16) by (bit_vector);
}

/// An inode whose entry for object `idx` was written over with `vid` says what
/// the map with `vid` there says.
proof fn lemma_entry_written(
    v: Vol,
    cl: Map<u64, Seq<u8>>,
    idx: u64,
    vid: u32,
    entry: Seq<u8>,
    cl2: Map<u64, Seq<u8>>,
)
    requires
        inode_holds(v, cl),
        idx < v.map.len(),
        entry.len() == 4,
        bytes::le_value(entry) == vid,
        cl2.dom().contains(wire::vdi_oid(v.vid)),
        cl2[wire::vdi_oid(v.vid)] == bytes::overwritten(
            cl[wire::vdi_oid(v.vid)],
            4664 + 4 * idx,
            entry,
        ),
    ensures
        inode_holds(volume::owned_by(v, idx, vid), cl2),
{
    let v2 = volume::owned_by(v, idx, vid);
    let a = cl[wire::vdi_oid(v.vid)];
    let b = cl2[wire::vdi_oid(v.vid)];
    assert forall|i: int| 0 <= i < v2.map.len() implies bytes::le_value(
        b.subrange(4664 + 4 * i, 4664 + 4 * i + 4),
    ) == #[trigger] v2.map[i] by {
        let x = b.subrange(4664 + 4 * i, 4664 + 4 * i + 4);
        if i == idx {
            assert(x =~= entry);
        } else {
            assert(x =~= a.subrange(4664 + 4 * i, 4664 + 4 * i + 4));
            assert(v.map[i] == v2.map[i]);
        }
    }
}

/// Whether object `i` is where the map says: a hole, or an object of full size.
pub open spec fn stored(v: Vol, cl: Map<u64, Seq<u8>>, i: int) -> bool {
    let owner = v.map[i];
    owner == 0 || {
        &&& owner < SD_NR_VDIS
        &&& cl.dom().contains(wire::data_oid(owner, i as u64))
        &&& cl[wire::data_oid(owner, i as u64)].len() == v.obj
    }
}

/// A volume no transfer of which is under way, with its objects in place.
pub open spec fn at_rest(v: Vol, cl: Map<u64, Seq<u8>>) -> bool {
    &&& 0 < v.obj <= 0x8000_0000
    &&& 0 < v.vid < SD_NR_VDIS
    &&& v.map.len() <= 0x10_0000
    &&& forall|i: int| 0 <= i < v.map.len() ==> #[trigger] stored(v, cl, i)
}

/// Byte `p` of the volume.
pub open spec fn byte_at(v: Vol, cl: Map<u64, Seq<u8>>, p: int) -> u8 {
    let i = p / v.obj as int;
    let owner = v.map[i];
    if owner == 0 {
        0
    } else {
        cl[wire::data_oid(owner, i as u64)][p % v.obj as int]
    }
}

/// Whether `off .. off + len` is within what the map covers.
pub open spec fn covered(v: Vol, off: int, len: int) -> bool {
    0 <= off && off + len <= v.map.len() * v.obj
}

/// How far a phase is from the next piece.
pub open spec fn rank(p: Phase) -> nat {
    match p {
        Phase::Ready => 4,
        Phase::Creating { .. } => 3,
        Phase::Persisting { .. } => 2,
        Phase::Overwriting { .. } => 1,
        Phase::Discarding { .. } => 1,
        Phase::Over => 0,
    }
}

/// Whether a task is part of the way through its transfer.
pub open spec fn under_way(t: WriteTask) -> bool {
    &&& t.done + volume::phase_len(t.phase) <= t.len
    &&& t.phase is Ready || volume::phase_len(t.phase) > 0
}

/// A write followed through to its end, every request served: the volume, the
/// objects, and the answer (`None` if it would wait for another transfer).
pub open spec fn write_run(v: Vol, cl: Map<u64, Seq<u8>>, t: WriteTask, buf: Seq<u8>) -> (
    Vol,
    Map<u64, Seq<u8>>,
    Option<Result<(), BackendError>>,
)
    decreases t.len - t.done, rank(t.phase),
{
    let (v2, t2, step) = volume::write_next(v, t, Ok(()));
    match step {
        WriteStep::Finish(r) => (v2, cl, Some(r)),
        WriteStep::Wait => (v2, cl, None),
        WriteStep::Send(req) => if under_way(t) {
            write_run(v2, served(cl, req, payload(req.data, buf), v.obj), t2, buf)
        } else {
            (v2, cl, None)
        },
    }
}

/// A read followed through to its end: the bytes, or `None` if it failed.
pub open spec fn read_run(v: Vol, cl: Map<u64, Seq<u8>>, t: ReadTask) -> Option<Seq<u8>>
    decreases t.len - t.done - t.pending,
{
    let (t2, step) = volume::read_next(v, t, Ok(()));
    match step {
        ReadStep::Finish(Ok(_)) => Some(Seq::empty()),
        ReadStep::Finish(Err(_)) => None,
        ReadStep::Zero(p) => if 0 < p.len <= t.len - t.done - t.pending {
            match read_run(v, cl, t2) {
                Some(rest) => Some(bytes::zeroes(p.len as nat) + rest),
                None => None,
            }
        } else {
            None
        },
        ReadStep::Fetch(req, p) => if 0 < p.len <= t.len - t.done - t.pending {
            match read_run(v, cl, t2) {
                Some(rest) => Some(
                    cl[req.oid].subrange(req.offset as int, req.offset + p.len) + rest,
                ),
                None => None,
            }
        } else {
            None
        },
    }
}

/// Where a piece lies: in one object of the map, its bytes at the offsets they
/// have in the volume.
proof fn lemma_piece(v: Vol, off: u64, len: usize, done: usize)
    requires
        0 < v.obj <= 0x8000_0000,
        v.map.len() <= 0x10_0000,
        covered(v, off as int, len as int),
        off + len <= u64::MAX,
        done < len,
    ensures
        ({
            let p = volume::next_piece(v.obj, off, len, done);
            let at = off + done;
            &&& p.idx == at / v.obj as int
            &&& p.idx < v.map.len()
            &&& p.in_obj == at % v.obj as int
            &&& p.in_obj + p.len <= v.obj
            &&& 0 < p.len <= len - done
            &&& p.from == done
            &&& forall|q: int|
                at <= q < at + p.len ==> #[trigger] (q / v.obj as int) == p.idx && q % v.obj as int
                    == p.in_obj + (q - at)
            &&& forall|q: int|
                (0 <= q && #[trigger] (q / v.obj as int) == p.idx && p.in_obj <= (q % v.obj as int)
                    < p.in_obj + p.len) ==> at <= q < at + p.len
        }),
{
    let obj = v.obj as int;
    let at = off + done;
    let i = at / obj;
    let r = at % obj;
    vstd::arithmetic::div_mod::lemma_fundamental_div_mod(at, obj);
    vstd::arithmetic::div_mod::lemma_mod_bound(at, obj);
    assert(i >= 0) by {
        vstd::arithmetic::div_mod::lemma_div_pos_is_pos(at, obj);
    }
    assert(i < v.map.len()) by (nonlinear_arith)
        requires
            at == obj * i + r,
            r >= 0,
            obj > 0,
            at < v.map.len() * obj,
    ;
    let p = volume::next_piece(v.obj, off, len, done);
    assert forall|q: int| at <= q < at + p.len implies #[trigger] (q / obj) == i && q % obj == r
        + (q - at) by {
        assert(q == i * obj + (r + (q - at))) by (nonlinear_arith)
            requires
                at == obj * i + r,
        ;
        vstd::arithmetic::div_mod::lemma_fundamental_div_mod_converse(
            q,
            obj,
            i,
            r + (q - at),
        );
    }
    assert forall|q: int|
        (0 <= q && #[trigger] (q / obj) == i && r <= q % obj < r + p.len) implies at <= q < at
        + p.len by {
        vstd::arithmetic::div_mod::lemma_fundamental_div_mod(q, obj);
    }
}

/// Every byte the map covers lies in an object of the map.
proof fn lemma_in_map(v: Vol, p: int)
    requires
        v.obj > 0,
        0 <= p < v.map.len() * v.obj,
    ensures
        0 <= p / v.obj as int,
        p / v.obj as int <= p,
        (p / v.obj as int) < v.map.len(),
        0 <= p % v.obj as int,
        p % (v.obj as int) < v.obj,
{
    let obj = v.obj as int;
    let i = p / obj;
    vstd::arithmetic::div_mod::lemma_fundamental_div_mod(p, obj);
    vstd::arithmetic::div_mod::lemma_mod_bound(p, obj);
    vstd::arithmetic::div_mod::lemma_div_pos_is_pos(p, obj);
    vstd::arithmetic::div_mod::lemma_div_is_ordered_by_denominator(p, 1, obj);
    assert(i < v.map.len()) by (nonlinear_arith)
        requires
            p == obj * i + p % obj,
            p % obj >= 0,
            obj > 0,
            p < v.map.len() * obj,
    ;
}

/// A read of a volume at rest gives back what the volume holds.
pub proof fn lemma_read_run(v: Vol, cl: Map<u64, Seq<u8>>, t: ReadTask)
    requires
        at_rest(v, cl),
        t.wf(),
        covered(v, t.off as int, t.len as int),
    ensures
        read_run(v, cl, t) == Some(
            Seq::new(
                (t.len - t.done - t.pending) as nat,
                |k: int| byte_at(v, cl, t.off + t.done + t.pending + k),
            ),
        ),
    decreases t.len - t.done - t.pending,
{
    let done = (t.done + t.pending) as usize;
    let held = |k: int| byte_at(v, cl, t.off + t.done + t.pending + k);
    let whole = Seq::new((t.len - t.done - t.pending) as nat, held);
    let (t2, step) = volume::read_next(v, t, Ok(()));
    if done < t.len {
        lemma_piece(v, t.off, t.len, done);
        let p = volume::next_piece(v.obj, t.off, t.len, done);
        let at = t.off + done;
        let owner = v.map[p.idx as int];
        assert(stored(v, cl, p.idx as int));
        lemma_read_run(v, cl, t2);
        let rest = read_run(v, cl, t2).unwrap();
        assert forall|k: int| 0 <= k < p.len implies whole[k] == (if owner == 0 {
            0u8
        } else {
            cl[wire::data_oid(owner, p.idx)][p.in_obj + k]
        }) by {
            let q = at + k;
            assert(q / v.obj as int == p.idx);
        }
        if owner == 0 {
            assert(whole =~= bytes::zeroes(p.len as nat) + rest);
        } else {
            let o = cl[wire::data_oid(owner, p.idx)];
            assert(whole =~= o.subrange(p.in_obj as int, p.in_obj + p.len) + rest);
        }
    } else {
        assert(whole =~= Seq::empty());
    }
}

/// What one piece of a write does, once it is done: the object it lies in is
/// the volume's own (or a hole), the piece holds the new bytes, and every other
/// byte is as it was.
spec fn piece_done(
    v: Vol,
    cl: Map<u64, Seq<u8>>,
    v2: Vol,
    cl2: Map<u64, Seq<u8>>,
    at: int,
    data: Seq<u8>,
) -> bool {
    &&& at_rest(v2, cl2)
    &&& v2.obj == v.obj && v2.vid == v.vid && v2.map.len() == v.map.len()
    &&& v2.read_only == v.read_only
    &&& forall|q: int|
        0 <= q < v.map.len() * v.obj ==> #[trigger] byte_at(v2, cl2, q) == if at <= q < at
            + data.len() {
            data[q - at]
        } else {
            byte_at(v, cl, q)
        }
}

/// Storing `o` as the volume's own object `i` changes that object's bytes, and
/// no others.
proof fn lemma_object_stored(
    v: Vol,
    cl: Map<u64, Seq<u8>>,
    p: Piece,
    at: int,
    base: Seq<u8>,
    data: Seq<u8>,
    v2: Vol,
    cl2: Map<u64, Seq<u8>>,
)
    requires
        at_rest(v, cl),
        p.idx < v.map.len(),
        base.len() == v.obj,
        data.len() == p.len,
        p.in_obj + p.len <= v.obj,
        at >= 0,
        forall|q: int|
            at <= q < at + p.len ==> #[trigger] (q / v.obj as int) == p.idx && q % v.obj as int
                == p.in_obj + (q - at),
        forall|q: int|
            (0 <= q && #[trigger] (q / v.obj as int) == p.idx && p.in_obj <= (q % v.obj as int)
                < p.in_obj + p.len) ==> at <= q < at + p.len,
        v.map[p.idx as int] == 0 ==> base == bytes::zeroes(v.obj),
        v.map[p.idx as int] != 0 ==> base == cl[wire::data_oid(v.map[p.idx as int], p.idx)],
        v2 == volume::owned_by(v, p.idx, v.vid),
        forall|o: u64|
            o != wire::data_oid(v.vid, p.idx) && o != wire::vdi_oid(v.vid) && (
            #[trigger] cl.dom().contains(o)) ==> cl2.dom().contains(o) && cl2[o] == cl[o],
        cl2.dom().contains(wire::data_oid(v.vid, p.idx)),
        cl2[wire::data_oid(v.vid, p.idx)] == bytes::overwritten(base, p.in_obj as int, data),
    ensures
        piece_done(v, cl, v2, cl2, at, data),
{
    let own = wire::data_oid(v.vid, p.idx);
    assert forall|i: int| 0 <= i < v2.map.len() implies #[trigger] stored(v2, cl2, i) by {
        assert(stored(v, cl, i));
        if i != p.idx && v.map[i] != 0 {
            wire::lemma_oids(v.map[i], i as u64, v.vid, p.idx);
            wire::lemma_oids(v.vid, i as u64, v.map[i], i as u64);
            assert(cl.dom().contains(wire::data_oid(v.map[i], i as u64)));
        }
    }
    assert forall|q: int| 0 <= q < v.map.len() * v.obj implies #[trigger] byte_at(v2, cl2, q)
        == if at <= q < at + data.len() {
        data[q - at]
    } else {
        byte_at(v, cl, q)
    } by {
        lemma_in_map(v, q);
        let i = q / v.obj as int;
        assert(stored(v, cl, i));
        if i == p.idx {
            assert(v2.map[i] == v.vid);
            let r = q % v.obj as int;
            assert(byte_at(v2, cl2, q) == bytes::overwritten(base, p.in_obj as int, data)[r]);
            assert(byte_at(v, cl, q) == base[r]);
            if at <= q < at + data.len() {
                assert(r == p.in_obj + (q - at));
            } else {
                assert(!(p.in_obj <= r < p.in_obj + p.len));
            }
        } else {
            assert(v2.map[i] == v.map[i]);
            if v.map[i] != 0 {
                wire::lemma_oids(v.map[i], i as u64, v.vid, p.idx);
                wire::lemma_oids(v.vid, i as u64, v.map[i], i as u64);
                assert(cl.dom().contains(wire::data_oid(v.map[i], i as u64)));
            }
        }
    }
}

/// Taking object `i` away leaves zeroes there, and no other byte changes.
proof fn lemma_object_gone(
    v: Vol,
    cl: Map<u64, Seq<u8>>,
    p: Piece,
    at: int,
    cl2: Map<u64, Seq<u8>>,
)
    requires
        forall|o: u64|
            o != wire::data_oid(v.vid, p.idx) && o != wire::vdi_oid(v.vid) && (
            #[trigger] cl.dom().contains(o)) ==> cl2.dom().contains(o) && cl2[o] == cl[o],
        at_rest(v, cl),
        p.idx < v.map.len(),
        p.in_obj == 0,
        p.len == v.obj,
        at >= 0,
        forall|q: int|
            at <= q < at + p.len ==> #[trigger] (q / v.obj as int) == p.idx && q % v.obj as int
                == p.in_obj + (q - at),
        forall|q: int|
            (0 <= q && #[trigger] (q / v.obj as int) == p.idx && p.in_obj <= (q % v.obj as int)
                < p.in_obj + p.len) ==> at <= q < at + p.len,
    ensures
        piece_done(
            v,
            cl,
            volume::owned_by(v, p.idx, 0),
            cl2,
            at,
            bytes::zeroes(v.obj),
        ),
{
    let v2 = volume::owned_by(v, p.idx, 0);
    assert forall|i: int| 0 <= i < v2.map.len() implies #[trigger] stored(v2, cl2, i) by {
        assert(stored(v, cl, i));
        if i != p.idx && v.map[i] != 0 {
            wire::lemma_oids(v.map[i], i as u64, v.vid, p.idx);
            wire::lemma_oids(v.vid, i as u64, v.map[i], i as u64);
            assert(cl.dom().contains(wire::data_oid(v.map[i], i as u64)));
        }
    }
    let data = bytes::zeroes(v.obj);
    assert forall|q: int| 0 <= q < v.map.len() * v.obj implies #[trigger] byte_at(v2, cl2, q)
        == if at <= q < at + data.len() {
        data[q - at]
    } else {
        byte_at(v, cl, q)
    } by {
        lemma_in_map(v, q);
        let i = q / v.obj as int;
        assert(stored(v, cl, i));
        if i == p.idx {
            assert(v2.map[i] == 0);
        } else {
            assert(v2.map[i] == v.map[i]);
            if v.map[i] != 0 {
                wire::lemma_oids(v.map[i], i as u64, v.vid, p.idx);
                wire::lemma_oids(v.vid, i as u64, v.map[i], i as u64);
                assert(cl.dom().contains(wire::data_oid(v.map[i], i as u64)));
            }
        }
    }
}

/// The inode and the entry a volume's own object is cleared in.
proof fn lemma_own_entry(vid: u32, idx: u64)
    requires
        vid < SD_NR_VDIS,
        idx < 0x1_0000_0000,
    ensures
        inode_of(wire::data_oid(vid, idx)) == wire::vdi_oid(vid),
        entry_at(wire::data_oid(vid, idx)) == 4664 + 4 * idx,
{
    wire::lemma_oids(vid, idx, vid, idx);
    let o = wire::data_oid(vid, idx) as int;
    vstd::arithmetic::div_mod::lemma_fundamental_div_mod_converse(
        o,
        0x1_0000_0000,
        vid as int,
        idx as int,
    );
}

proof fn lemma_zero_entry()
    ensures
        bytes::le_value(bytes::zeroes(4)) == 0,
{
    reveal_with_fuel(bytes::le_value, 5);
}

/// The bytes a write task puts in place.
pub open spec fn new_byte(t: WriteTask, buf: Seq<u8>, q: int) -> u8 {
    if t.zeroes {
        0
    } else {
        buf[q - t.off]
    }
}

/// What a write that runs to its end comes to.
spec fn run_done(v: Vol, cl: Map<u64, Seq<u8>>, t: WriteTask, buf: Seq<u8>) -> bool {
    let (v2, cl2, r) = write_run(v, cl, t, buf);
    &&& r == Some(Ok::<(), BackendError>(()))
    &&& at_rest(v2, cl2)
    &&& v2.obj == v.obj && v2.vid == v.vid && v2.map.len() == v.map.len()
    &&& inode_holds(v, cl) ==> inode_holds(v2, cl2)
    &&& forall|q: int|
        0 <= q < v.map.len() * v.obj ==> #[trigger] byte_at(v2, cl2, q) == if t.off + t.done <= q
            < t.off + t.len {
            new_byte(t, buf, q)
        } else {
            byte_at(v, cl, q)
        }
}

#[verifier::spinoff_prover]
#[verifier::rlimit(40)]
proof fn lemma_run_gone(v: Vol, cl: Map<u64, Seq<u8>>, t: WriteTask, buf: Seq<u8>)
    requires
        at_rest(v, cl),
        t.phase is Ready,
        t.done < t.len,
        t.off + t.len <= u64::MAX,
        covered(v, t.off as int, t.len as int),
        !t.zeroes ==> buf.len() == t.len,
        t.zeroes && volume::next_piece(v.obj, t.off, t.len, t.done).len == v.obj,
    ensures
        run_done(v, cl, t, buf),
    decreases t.len - t.done, 0nat,
{
    lemma_piece(v, t.off, t.len, t.done);
    let p = volume::next_piece(v.obj, t.off, t.len, t.done);
    let at = t.off + t.done;
    let owner = v.map[p.idx as int];
    assert(stored(v, cl, p.idx as int));
    assert(owner != VID_INFLIGHT);
    let data = if t.zeroes {
        bytes::zeroes(p.len as nat)
    } else {
        buf.subrange(t.done as int, t.done + p.len)
    };
    let next = WriteTask { done: (t.done + p.len) as usize, ..t };
    let (v1, t1, s1) = volume::write_next(v, t, Ok(()));
    let own = wire::data_oid(v.vid, p.idx);
    wire::lemma_oids(v.vid, p.idx, v.vid, p.idx);
    assert(forall|q: int|
        at <= q < at + p.len ==> #[trigger] new_byte(t, buf, q) == data[q - at]);
    reveal_with_fuel(write_run, 3);
    lemma_flags();
    lemma_own_entry(v.vid, p.idx);
    let req = volume::discard_req(v.vid, p.idx);
    assert(s1 == WriteStep::Send(req));
    let cl1 = served(cl, req, payload(req.data, buf), v.obj);
    assert(p.in_obj == 0);
    lemma_object_gone(v, cl, p, at, cl1);
    let v2 = volume::owned_by(v, p.idx, 0);
    if inode_holds(v, cl) {
        lemma_zero_entry();
        lemma_entry_written(v, cl, p.idx, 0, bytes::zeroes(4), cl1);
    }
    assert(volume::owned_by(v1, p.idx, 0).map =~= v2.map);
    lemma_write_run(v2, cl1, next, buf);
    assert(volume::write_next(v1, t1, Ok(())) == volume::write_next(v2, next, Ok(())));
    assert(write_run(v1, cl1, t1, buf) == write_run(v2, cl1, next, buf));
    assert(data =~= bytes::zeroes(v.obj));
    assert(piece_done(v, cl, v2, cl1, at, data));
}

#[verifier::spinoff_prover]
#[verifier::rlimit(40)]
proof fn lemma_run_own(v: Vol, cl: Map<u64, Seq<u8>>, t: WriteTask, buf: Seq<u8>)
    requires
        at_rest(v, cl),
        t.phase is Ready,
        t.done < t.len,
        t.off + t.len <= u64::MAX,
        covered(v, t.off as int, t.len as int),
        !t.zeroes ==> buf.len() == t.len,
        !(t.zeroes && volume::next_piece(v.obj, t.off, t.len, t.done).len == v.obj),
        v.map[volume::next_piece(v.obj, t.off, t.len, t.done).idx as int] == v.vid,
    ensures
        run_done(v, cl, t, buf),
    decreases t.len - t.done, 0nat,
{
    lemma_piece(v, t.off, t.len, t.done);
    let p = volume::next_piece(v.obj, t.off, t.len, t.done);
    let at = t.off + t.done;
    let owner = v.map[p.idx as int];
    assert(stored(v, cl, p.idx as int));
    assert(owner != VID_INFLIGHT);
    let data = if t.zeroes {
        bytes::zeroes(p.len as nat)
    } else {
        buf.subrange(t.done as int, t.done + p.len)
    };
    let next = WriteTask { done: (t.done + p.len) as usize, ..t };
    let (v1, t1, s1) = volume::write_next(v, t, Ok(()));
    let own = wire::data_oid(v.vid, p.idx);
    wire::lemma_oids(v.vid, p.idx, v.vid, p.idx);
    assert(forall|q: int|
        at <= q < at + p.len ==> #[trigger] new_byte(t, buf, q) == data[q - at]);
    reveal_with_fuel(write_run, 3);
    lemma_flags();
    lemma_own_entry(v.vid, p.idx);
    let req = volume::write_req(v.vid, p, volume::piece_data(t, p));
    assert(s1 == WriteStep::Send(req));
    assert(payload(req.data, buf) == data);
    let cl1 = served(cl, req, data, v.obj);
    assert(volume::owned_by(v, p.idx, v.vid).map =~= v.map);
    lemma_object_stored(v, cl, p, at, cl[own], data, v, cl1);
    lemma_write_run(v, cl1, next, buf);
    assert(volume::write_next(v1, t1, Ok(())) == volume::write_next(v, next, Ok(())));
    assert(write_run(v1, cl1, t1, buf) == write_run(v, cl1, next, buf));
}

#[verifier::spinoff_prover]
#[verifier::rlimit(40)]
proof fn lemma_run_new(v: Vol, cl: Map<u64, Seq<u8>>, t: WriteTask, buf: Seq<u8>)
    requires
        at_rest(v, cl),
        t.phase is Ready,
        t.done < t.len,
        t.off + t.len <= u64::MAX,
        covered(v, t.off as int, t.len as int),
        !t.zeroes ==> buf.len() == t.len,
        !(t.zeroes && volume::next_piece(v.obj, t.off, t.len, t.done).len == v.obj),
        v.map[volume::next_piece(v.obj, t.off, t.len, t.done).idx as int] != v.vid,
    ensures
        run_done(v, cl, t, buf),
    decreases t.len - t.done, 0nat,
{
    lemma_piece(v, t.off, t.len, t.done);
    let p = volume::next_piece(v.obj, t.off, t.len, t.done);
    let at = t.off + t.done;
    let owner = v.map[p.idx as int];
    assert(stored(v, cl, p.idx as int));
    assert(owner != VID_INFLIGHT);
    let data = if t.zeroes {
        bytes::zeroes(p.len as nat)
    } else {
        buf.subrange(t.done as int, t.done + p.len)
    };
    let next = WriteTask { done: (t.done + p.len) as usize, ..t };
    let (v1, t1, s1) = volume::write_next(v, t, Ok(()));
    let own = wire::data_oid(v.vid, p.idx);
    wire::lemma_oids(v.vid, p.idx, v.vid, p.idx);
    assert(forall|q: int|
        at <= q < at + p.len ==> #[trigger] new_byte(t, buf, q) == data[q - at]);
    reveal_with_fuel(write_run, 3);
    lemma_flags();
    lemma_own_entry(v.vid, p.idx);
    let req = volume::create_req(v.vid, owner, p, volume::piece_data(t, p));
    assert(s1 == WriteStep::Send(req));
    assert(payload(req.data, buf) == data);
    let cl1 = served(cl, req, data, v.obj);
    let base = if owner == 0 {
        bytes::zeroes(v.obj)
    } else {
        cl[wire::data_oid(owner, p.idx)]
    };
    if owner != 0 {
        wire::lemma_oids(owner, p.idx, v.vid, p.idx);
    }
    let (w, t2, s2) = volume::write_next(v1, t1, Ok(()));
    let req2 = volume::persist_req(v.vid, p.idx);
    assert(s2 == WriteStep::Send(req2));
    let cl2 = served(cl1, req2, payload(req2.data, buf), v.obj);
    let v2 = volume::owned_by(v, p.idx, v.vid);
    assert(volume::owned_by(w, p.idx, v.vid).map =~= v2.map);
    lemma_object_stored(v, cl, p, at, base, data, v2, cl2);
    if inode_holds(v, cl) {
        bytes::lemma_le(v.vid as nat, 4);
        bytes::lemma_pow256();
        lemma_entry_written(v, cl, p.idx, v.vid, bytes::le(v.vid as nat, 4), cl2);
    }
    lemma_write_run(v2, cl2, next, buf);
    assert(volume::write_next(w, t2, Ok(())) == volume::write_next(v2, next, Ok(())));
    assert(write_run(w, cl2, t2, buf) == write_run(v2, cl2, next, buf));
    assert(write_run(v1, cl1, t1, buf) == write_run(w, cl2, t2, buf));
}

/// A write that runs to its end on a volume at rest succeeds; the bytes it
/// covers are then the caller's (or zeroes), every other byte is as it was,
/// objects of a parent included, the volume is at rest again, and its inode
/// still says what its map says.
pub proof fn lemma_write_run(v: Vol, cl: Map<u64, Seq<u8>>, t: WriteTask, buf: Seq<u8>)
    requires
        at_rest(v, cl),
        t.phase is Ready,
        t.done <= t.len,
        t.off + t.len <= u64::MAX,
        covered(v, t.off as int, t.len as int),
        !t.zeroes ==> buf.len() == t.len,
    ensures
        ({
            let (v2, cl2, r) = write_run(v, cl, t, buf);
            &&& r == Some(Ok::<(), BackendError>(()))
            &&& at_rest(v2, cl2)
            &&& v2.obj == v.obj && v2.vid == v.vid && v2.map.len() == v.map.len()
            &&& inode_holds(v, cl) ==> inode_holds(v2, cl2)
            &&& forall|q: int|
                0 <= q < v.map.len() * v.obj ==> #[trigger] byte_at(v2, cl2, q) == if t.off + t.done
                    <= q < t.off + t.len {
                    new_byte(t, buf, q)
                } else {
                    byte_at(v, cl, q)
                }
        }),
    decreases t.len - t.done, 1nat,
{
    if t.done < t.len {
        let p = volume::next_piece(v.obj, t.off, t.len, t.done);
        if t.zeroes && p.len == v.obj {
            lemma_run_gone(v, cl, t, buf);
        } else if v.map[p.idx as int] == v.vid {
            lemma_run_own(v, cl, t, buf);
        } else {
            lemma_run_new(v, cl, t, buf);
        }
    }
}

/// What was written is what is read: a read of the range a write has covered
/// gives back the written bytes.
pub proof fn lemma_read_back(
    v: Vol,
    cl: Map<u64, Seq<u8>>,
    off: u64,
    buf: Seq<u8>,
    w: WriteTask,
    r: ReadTask,
)
    requires
        at_rest(v, cl),
        buf.len() <= usize::MAX,
        off + buf.len() <= u64::MAX,
        covered(v, off as int, buf.len() as int),
        w == (WriteTask {
            off,
            len: buf.len() as usize,
            done: 0,
            zeroes: false,
            phase: Phase::Ready,
        }),
        r == (ReadTask { off, len: buf.len() as usize, done: 0, pending: 0 }),
    ensures
        ({
            let (v2, cl2, answer) = write_run(v, cl, w, buf);
            read_run(v2, cl2, r) == Some(buf)
        }),
{
    lemma_write_run(v, cl, w, buf);
    let (v2, cl2, answer) = write_run(v, cl, w, buf);
    lemma_read_run(v2, cl2, r);
    let got = read_run(v2, cl2, r).unwrap();
    assert forall|k: int| 0 <= k < buf.len() implies got[k] == buf[k] by {
        assert(got[k] == byte_at(v2, cl2, off + k));
    }
    assert(got =~= buf);
}

/// A range that zeroes were written over reads as zeroes, whether or not its
/// objects were taken away.
pub proof fn lemma_zeroes_back(
    v: Vol,
    cl: Map<u64, Seq<u8>>,
    off: u64,
    len: usize,
    w: WriteTask,
    r: ReadTask,
)
    requires
        at_rest(v, cl),
        off + len <= u64::MAX,
        covered(v, off as int, len as int),
        w == (WriteTask { off, len, done: 0, zeroes: true, phase: Phase::Ready }),
        r == (ReadTask { off, len, done: 0, pending: 0 }),
    ensures
        ({
            let (v2, cl2, answer) = write_run(v, cl, w, Seq::empty());
            read_run(v2, cl2, r) == Some(bytes::zeroes(len as nat))
        }),
{
    lemma_write_run(v, cl, w, Seq::empty());
    let (v2, cl2, answer) = write_run(v, cl, w, Seq::empty());
    lemma_read_run(v2, cl2, r);
    let got = read_run(v2, cl2, r).unwrap();
    assert forall|k: int| 0 <= k < len implies got[k] == 0 by {
        assert(got[k] == byte_at(v2, cl2, off + k));
    }
    assert(got =~= bytes::zeroes(len as nat));
}

/// An object one transfer is changing is out of every other's reach: a write
/// that comes to it waits, and a read of it sees a hole.
pub proof fn lemma_marked_object_waits(v: Vol, t: WriteTask)
    requires
        t.done < t.len,
        ({
            let p = volume::next_piece(v.obj, t.off, t.len, t.done);
            p.idx < v.map.len() && v.map[p.idx as int] == VID_INFLIGHT
        }),
    ensures
        volume::write_begin(v, t) == (
            v,
            WriteTask { phase: Phase::Ready, ..t },
            WriteStep::Wait,
        ),
{
}

/// A write that fails while it changes the map leaves the map as it was: the
/// mark it had set is taken back.
pub proof fn lemma_failure_restores_map(v: Vol, t: WriteTask, e: BackendError)
    requires
        t.phase is Ready,
        ({
            let (v1, t1, s1) = volume::write_begin(v, t);
            volume::phase_idx(t1.phase) is Some
        }),
    ensures
        ({
            let (v1, t1, s1) = volume::write_begin(v, t);
            let (v2, t2, s2) = volume::write_next(v1, t1, Err(e));
            // Refused at once.
            &&& v2.map == v.map
            &&& s2 == WriteStep::Finish(Err(e))
            // Refused when the map entry was to be persisted.
            &&& t1.phase is Creating ==> {
                let (v3, t3, s3) = volume::write_next(v1, t1, Ok(()));
                let (v4, t4, s4) = volume::write_next(v3, t3, Err(e));
                v4.map == v.map && s4 == WriteStep::Finish(Err(e))
            }
        }),
{
    let (v1, t1, s1) = volume::write_begin(v, t);
    let p = volume::next_piece(v.obj, t.off, t.len, t.done);
    let (v2, t2, s2) = volume::write_next(v1, t1, Err(e));
    assert(v2.map =~= v.map);
    let (v3, t3, s3) = volume::write_next(v1, t1, Ok(()));
    let (v4, t4, s4) = volume::write_next(v3, t3, Err(e));
    if t1.phase is Creating {
        assert(v4.map =~= v.map);
    }
}

// ---------------------------------------------------------------------------
// What the requests of a transfer are
// ---------------------------------------------------------------------------

/// The caller's buffer once the cluster has answered `req`: a read fills the
/// bytes it names with those of the object, anything else leaves it alone.
pub open spec fn answered(cl: Map<u64, Seq<u8>>, req: ObjRequest, buf: Seq<u8>) -> Seq<u8> {
    match req.data {
        Data::Into { from, len } => if req.opcode == SD_OP_READ_OBJ && !brings_payload(req.flags) {
            bytes::overwritten(
                buf,
                from as int,
                cl[req.oid].subrange(req.offset as int, req.offset + len),
            )
        } else {
            buf
        },
        _ => buf,
    }
}

/// The caller's buffer at the end of a read whose every request the cluster
/// answers; `None` if it failed.
pub open spec fn read_into(v: Vol, cl: Map<u64, Seq<u8>>, t: ReadTask, buf: Seq<u8>) -> Option<
    Seq<u8>,
>
    decreases t.len - t.done - t.pending,
{
    let (t2, step) = volume::read_next(v, t, Ok(()));
    if t2.done + t2.pending <= t.done + t.pending && !(step is Finish) {
        None
    } else if t2.done + t2.pending > t2.len || t2.len != t.len {
        None
    } else {
        match step {
            ReadStep::Finish(Ok(_)) => Some(buf),
            ReadStep::Finish(Err(_)) => None,
            ReadStep::Zero(p) => read_into(
                v,
                cl,
                t2,
                bytes::overwritten(buf, p.from as int, bytes::zeroes(p.len as nat)),
            ),
            ReadStep::Fetch(req, _) => read_into(v, cl, t2, answered(cl, req, buf)),
        }
    }
}

/// A read of a volume at rest leaves in the caller's buffer, byte for byte, what
/// the volume holds from the read's first byte on.
pub proof fn lemma_read_into(v: Vol, cl: Map<u64, Seq<u8>>, t: ReadTask, buf: Seq<u8>)
    requires
        at_rest(v, cl),
        t.wf(),
        covered(v, t.off as int, t.len as int),
        buf.len() == t.len,
    ensures
        read_into(v, cl, t, buf) matches Some(r) && r.len() == t.len && forall|k: int|
            0 <= k < t.len ==> #[trigger] r[k] == if k < t.done + t.pending {
                buf[k]
            } else {
                byte_at(v, cl, t.off + k)
            },
    decreases t.len - t.done - t.pending,
{
    let done = (t.done + t.pending) as usize;
    let (t2, step) = volume::read_next(v, t, Ok(()));
    if done < t.len {
        lemma_piece(v, t.off, t.len, done);
        let p = volume::next_piece(v.obj, t.off, t.len, done);
        let at = t.off + done;
        let owner = v.map[p.idx as int];
        assert(stored(v, cl, p.idx as int));
        let got = if owner == 0 {
            bytes::zeroes(p.len as nat)
        } else {
            cl[wire::data_oid(owner, p.idx)].subrange(p.in_obj as int, p.in_obj + p.len)
        };
        let buf2 = bytes::overwritten(buf, done as int, got);
        assert forall|k: int| 0 <= k < p.len implies #[trigger] got[k] == byte_at(v, cl, at + k) by {
            let q = at + k;
            assert(q / v.obj as int == p.idx);
        }
        lemma_read_into(v, cl, t2, buf2);
        assert(read_into(v, cl, t, buf) == read_into(v, cl, t2, buf2));
        let r = read_into(v, cl, t, buf).unwrap();
        assert forall|k: int| 0 <= k < t.len implies #[trigger] r[k] == if k < t.done + t.pending {
            buf[k]
        } else {
            byte_at(v, cl, t.off + k)
        } by {
            if done <= k < done + p.len {
                assert(buf2[k] == got[k - done]);
            }
        }
    }
}

/// An object is created as a copy exactly where it has an owner, and as a copy of
/// that owner's object; where it is a hole nothing is copied. Which object that
/// is, the place of the transfer's next byte tells.
pub proof fn lemma_create_copies_owner(v: Vol, t: WriteTask)
    requires
        0 < v.obj,
        0 < v.vid < SD_NR_VDIS,
        v.map.len() <= 0x10_0000,
        forall|i: int|
            0 <= i < v.map.len() ==> #[trigger] v.map[i] < SD_NR_VDIS || v.map[i] == VID_INFLIGHT,
        t.off + t.len <= u64::MAX,
    ensures
        volume::write_begin(v, t).2 matches WriteStep::Send(req) ==> {
            let i = (t.off + t.done) / v.obj as int;
            let owner = v.map[i];
            &&& req.opcode == 0x01 <==> owner != v.vid && req.opcode != 0x05
            &&& req.opcode == 0x01 ==> (copies_first(req.flags) <==> owner != 0)
            &&& req.opcode == 0x01 && owner != 0 ==> req.cow_oid == owner * 0x1_0000_0000 + i
            &&& req.opcode != 0x01 ==> !copies_first(req.flags)
            &&& req.oid == v.vid * 0x1_0000_0000 + i
        },
{
    lemma_flags();
    let at = t.off + t.done;
    let i = at / v.obj as int;
    if t.done < t.len {
        vstd::arithmetic::div_mod::lemma_div_pos_is_pos(at, v.obj as int);
        vstd::arithmetic::div_mod::lemma_div_is_ordered_by_denominator(at, 1, v.obj as int);
        assert(at / 1 == at);
        if i < v.map.len() {
            let owner = v.map[i];
            wire::lemma_oids(v.vid, i as u64, v.vid, i as u64);
            if owner < SD_NR_VDIS {
                wire::lemma_oids(owner, i as u64, v.vid, i as u64);
            }
        }
    }
}

/// Whatever a write sends that changes bytes brings them along and goes past the
/// object cache, so that it is durable when it is answered; a discard brings
/// nothing. A map entry goes to the volume's own inode.
pub proof fn lemma_writes_are_durable(v: Vol, t: WriteTask, last: Result<(), BackendError>)
    ensures
        volume::write_next(v, t, last).2 matches WriteStep::Send(req) ==> {
            &&& req.opcode == 0x01 || req.opcode == 0x03 || req.opcode == 0x05
            &&& req.opcode != 0x05 ==> brings_payload(req.flags) && past_cache(req.flags)
            &&& req.opcode == 0x05 ==> req.data is Nothing && !brings_payload(req.flags)
            &&& req.data is Entry ==> req.opcode == 0x03 && req.oid == wire::vdi_oid(v.vid)
        },
{
    lemma_flags();
}

/// A write that brings the caller's bytes brings those that belong at the place
/// it names: byte `k` of the buffer is for byte `off + k` of the volume, and no
/// object is asked past its end.
pub proof fn lemma_write_places_bytes(v: Vol, t: WriteTask)
    requires
        0 < v.obj <= 0x8000_0000,
        t.off + t.len <= u64::MAX,
        t.done < t.len,
    ensures
        volume::write_begin(v, t).2 matches WriteStep::Send(req) ==> {
            let i = (t.off + t.done) / v.obj as int;
            &&& req.data matches Data::From { from, len } ==> {
                &&& !t.zeroes
                &&& 0 < len <= t.len - from
                &&& i * v.obj + req.offset == t.off + from
                &&& req.offset + len <= v.obj
            }
            &&& req.data matches Data::Zeroes { len } ==> {
                &&& t.zeroes
                &&& 0 < len < v.obj
                &&& i * v.obj + req.offset == t.off + t.done
                &&& req.offset + len <= v.obj
            }
            &&& req.opcode == 0x05 ==> t.zeroes && i * v.obj == t.off + t.done && v.obj <= t.len
                - t.done
        },
{
    let at = t.off + t.done;
    vstd::arithmetic::div_mod::lemma_fundamental_div_mod(at, v.obj as int);
    vstd::arithmetic::div_mod::lemma_mod_bound(at, v.obj as int);
    assert(v.obj * (at / v.obj as int) == at / v.obj as int * v.obj) by (nonlinear_arith);
}

/// A batch of ranges is deallocated exactly where every one of them is one whole
/// object of the device; the whole batch is refused otherwise.
pub proof fn lemma_discard_whole_objects(v: Vol, blocks: u64, ranges: Seq<crate::backend::LbaRange>)
    requires
        0 < v.obj,
    ensures
        volume::discard_fault(v, blocks, ranges, 0) is None <==> forall|k: int|
            0 <= k < ranges.len() ==> {
                &&& (#[trigger] ranges[k]).slba + ranges[k].nlb <= blocks
                &&& ranges[k].nlb * 512 == v.obj
                &&& ranges[k].slba * 512 % v.obj as int == 0
            },
{
    lemma_discard_from(v, blocks, ranges, 0);
}

proof fn lemma_discard_from(
    v: Vol,
    blocks: u64,
    ranges: Seq<crate::backend::LbaRange>,
    from: int,
)
    requires
        0 < v.obj,
        0 <= from <= ranges.len(),
    ensures
        volume::discard_fault(v, blocks, ranges, from) is None <==> forall|k: int|
            from <= k < ranges.len() ==> {
                &&& (#[trigger] ranges[k]).slba + ranges[k].nlb <= blocks
                &&& ranges[k].nlb * 512 == v.obj
                &&& ranges[k].slba * 512 % v.obj as int == 0
            },
    decreases ranges.len() - from,
{
    if from < ranges.len() {
        lemma_discard_from(v, blocks, ranges, from + 1);
        let r = ranges[from];
        if r.slba + r.nlb <= blocks && r.nlb * 512 == v.obj && r.slba * 512 % v.obj as int == 0 {
            assert forall|k: int|
                from <= k < ranges.len() && volume::discard_fault(
                    v,
                    blocks,
                    ranges,
                    from + 1,
                ) is None implies {
                &&& (#[trigger] ranges[k]).slba + ranges[k].nlb <= blocks
                &&& ranges[k].nlb * 512 == v.obj
                &&& ranges[k].slba * 512 % v.obj as int == 0
            } by {
                if k == from {
                }
            }
        }
    }
}

/// The entries of an object map cover a volume: with one less some of its bytes
/// would have no object, and with these none has none, as far as the array
/// goes.
pub proof fn lemma_objects_of(size: nat, obj: nat)
    requires
        size > 0,
        obj > 0,
    ensures
        ({
            let n = volume::objects_of(size, obj);
            &&& 0 < n <= 0x10_0000
            &&& (n - 1) * obj < size
            &&& n < 0x10_0000 ==> size <= n * obj
        }),
{
    let d = obj as int;
    let x = size + obj - 1;
    let q = x / d;
    vstd::arithmetic::div_mod::lemma_fundamental_div_mod(x, d);
    vstd::arithmetic::div_mod::lemma_mod_bound(x, d);
    assert(q > 0 && (q - 1) * d < size && size <= q * d) by (nonlinear_arith)
        requires
            x == d * q + x % d,
            0 <= x % d < d,
            x == size + d - 1,
            size > 0,
            d > 0,
    ;
    if q > 0x10_0000 {
        assert((0x10_0000 - 1) * d <= (q - 1) * d) by (nonlinear_arith)
            requires
                0x10_0000 <= q,
                d > 0,
        ;
    }
}

/// A transfer of whole blocks is answered by its place: it is carried out where
/// it ends by the last byte of the volume, and refused as out of range
/// otherwise.
pub proof fn lemma_transfer_answer(blocks: u64, slba: u64, len: nat)
    requires
        len % 512 == 0,
        len <= u64::MAX,
    ensures
        volume::transfer_answer(blocks, slba, len) is Ok <==> slba * 512 + len <= blocks * 512,
        volume::transfer_answer(blocks, slba, len) is Ok || volume::transfer_answer(
            blocks,
            slba,
            len,
        ) == Err::<(), BackendError>(BackendError::OutOfRange),
{
}

/// A read goes on from the bytes that are done: it fetches the piece from the
/// object of the VDI that the map names, leaves zeroes where the map has a hole
/// or an object that is being changed, and ends with the error that a piece
/// ended in.
pub proof fn lemma_read_steps(v: Vol, t: ReadTask, e: BackendError)
    requires
        0 < v.obj,
        v.map.len() <= 0x10_0000,
        t.off + t.len <= u64::MAX,
        t.done + t.pending <= t.len,
    ensures
        volume::read_next(v, t, Err(e)).1 == ReadStep::Finish(Err(e)),
        ({
            let done = t.done + t.pending;
            let i = (t.off + done) / v.obj as int;
            let (t2, step) = volume::read_next(v, t, Ok(()));
            &&& t2.done == done && t2.off == t.off && t2.len == t.len
            &&& step == ReadStep::Finish(Ok(())) <==> done == t.len
            &&& step == ReadStep::Finish(Err(BackendError::OutOfRange)) <==> done < t.len && i
                >= v.map.len()
            &&& step is Zero <==> done < t.len && i < v.map.len() && (v.map[i] == 0 || v.map[i]
                == 0xffff_ffff)
            &&& step matches ReadStep::Zero(p) ==> p.from == done && p.len == t2.pending
            &&& step matches ReadStep::Fetch(req, p) ==> {
                &&& req.opcode == 0x02
                &&& req.flags == 0
                &&& v.map[i] < SD_NR_VDIS ==> req.oid == v.map[i] * 0x1_0000_0000 + i
                &&& req.offset == (t.off + done) % v.obj as int
                &&& req.data == Data::Into { from: done as usize, len: t2.pending }
                &&& p.from == done && p.len == t2.pending
            }
        }),
{
    let at = t.off + t.done + t.pending;
    let i = at / v.obj as int;
    vstd::arithmetic::div_mod::lemma_div_pos_is_pos(at, v.obj as int);
    vstd::arithmetic::div_mod::lemma_div_is_ordered_by_denominator(at, 1, v.obj as int);
    vstd::arithmetic::div_mod::lemma_mod_bound(at, v.obj as int);
    assert(at / 1 == at);
    vstd::arithmetic::div_mod::lemma_mod_decreases(at as nat, v.obj);
    if i < v.map.len() && v.map[i] < SD_NR_VDIS {
        wire::lemma_oids(v.map[i], i as u64, v.map[i], i as u64);
    }
}

/// A batch of ranges that is refused is refused for the first range that is not
/// one whole object of the device: as out of range where it goes beyond it, as
/// not supported otherwise.
pub proof fn lemma_discard_refused(
    v: Vol,
    blocks: u64,
    ranges: Seq<crate::backend::LbaRange>,
    from: int,
    k: int,
)
    requires
        0 < v.obj,
        0 <= from <= k < ranges.len(),
        forall|j: int|
            from <= j < k ==> {
                &&& (#[trigger] ranges[j]).slba + ranges[j].nlb <= blocks
                &&& ranges[j].nlb * 512 == v.obj
                &&& ranges[j].slba * 512 % v.obj as int == 0
            },
        ranges[k].slba + ranges[k].nlb > blocks || ranges[k].nlb * 512 != v.obj || ranges[k].slba
            * 512 % v.obj as int != 0,
    ensures
        volume::discard_fault(v, blocks, ranges, from) == Some(
            if ranges[k].slba + ranges[k].nlb > blocks {
                BackendError::OutOfRange
            } else {
                BackendError::Unsupported
            },
        ),
    decreases k - from,
{
    if from < k {
        assert(ranges[from].slba + ranges[from].nlb <= blocks);
        lemma_discard_refused(v, blocks, ranges, from + 1, k);
    }
}

} // verus!
