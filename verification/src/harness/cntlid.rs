//! Controller-id partitions: cntlids must be unique per subsystem across every
//! port process and every target serving it, none of which talk to each other.

use vstd::prelude::*;

use crate::sheepdog::wire::VDI_MAX_HOLDERS;

verus! {

/// The highest cntlid a controller may have.
pub const CNTLID_MAX: u16 = 0xffef;

/// Where the cluster filed this target among the holders of one volume.
///
/// Sheepdog's shared VDI lock is a fixed array of participant slots, and a
/// holder keeps its slot until it unregisters — the cluster leaves a hole
/// rather than renumbering the rest. That makes the slot a small, stable,
/// cluster-assigned identity for "which of the targets serving this volume am
/// I".
#[derive(Clone, Copy, Debug, PartialEq, Eq, Structural)]
pub struct HolderSlot {
    /// The volume whose participant list the slot is in.
    pub vid: u32,
    /// The slot itself, below [`VDI_MAX_HOLDERS`].
    pub slot: u16,
}

/// How wide each of the equal partitions of a range is.
pub open spec fn width(range: (u16, u16)) -> int {
    (range.1 - range.0 + 1) / 31
}

/// Partition `slot` of a range: the last one keeps the remainder of an uneven
/// cut.
pub open spec fn partition(range: (u16, u16), slot: int) -> (int, int) {
    let min = range.0 + slot * width(range);
    (
        min,
        if slot + 1 == 31 {
            range.1 as int
        } else {
            min + width(range) - 1
        },
    )
}

/// Narrow this process's cntlid slice to the partition belonging to its holder
/// slot.
///
/// What the cluster records is the participant list, and a slot in it is held
/// by exactly one target: cut the cntlid range into [`VDI_MAX_HOLDERS`] equal
/// partitions, take the one matching our slot, and no two paths to the same
/// subsystem can mint the same cntlid.
///
/// Falls back to the whole slice when there is no slot to key on (local
/// storage, no locking, or a cluster that would not answer) or when the slice
/// is too small to cut.
pub fn holder_cntlid_slice(range: (u16, u16), holder: Option<HolderSlot>) -> (r: (u16, u16))
    requires
        range.0 <= range.1,
    ensures
        match holder {
            None => r == range,
            Some(h) => if width(range) == 0 || h.slot >= VDI_MAX_HOLDERS {
                r == range
            } else {
                (r.0 as int, r.1 as int) == partition(range, h.slot as int)
            },
        },
{
    let (base, top): (u16, u16) = range;
    let slot: u16 = match holder {
        Some(h) => h.slot,
        None => {
            return range;
        },
    };
    let parts: u32 = VDI_MAX_HOLDERS as u32;
    let wide: u32 = (top as u32 - base as u32 + 1) / parts;
    if wide == 0 || slot as u32 >= parts {
        return range;
    }
    proof {
        lemma_partition(range, slot as int, slot as int);
        assert(slot * wide <= 31 * wide) by (nonlinear_arith)
            requires
                slot < 31,
                wide > 0,
        ;
    }
    let min: u32 = base as u32 + slot as u32 * wide;
    let max: u32 = if slot as u32 + 1 == parts {
        top as u32
    } else {
        min + wide - 1
    };
    (min as u16, max as u16)
}

/// Partitions lie in the range, are not empty, and no two of them meet.
proof fn lemma_partition(range: (u16, u16), a: int, b: int)
    requires
        range.0 <= range.1,
        width(range) > 0,
        0 <= a < 31,
        0 <= b < 31,
    ensures
        range.0 <= partition(range, a).0 <= partition(range, a).1 <= range.1,
        a < b ==> partition(range, a).1 < partition(range, b).0,
        a + 1 == b ==> partition(range, a).1 + 1 == partition(range, b).0,
{
    let w = width(range);
    assert(31 * w <= range.1 - range.0 + 1);
    assert(a * w >= 0 && (a + 1) * w == a * w + w && (a + 1) * w <= 31 * w) by (nonlinear_arith)
        requires
            0 <= a < 31,
            w > 0,
    ;
    if a < b {
        assert((a + 1) * w <= b * w) by (nonlinear_arith)
            requires
                a < b,
                w > 0,
        ;
    }
}

/// The partitions of a range that is wide enough tile it: the first starts
/// where it does, each starts where the one before it ends, the last ends where
/// it does, and none is empty — so no two targets can mint the same cntlid.
pub proof fn lemma_partitions_tile(range: (u16, u16), a: int, b: int)
    requires
        range.0 <= range.1,
        width(range) > 0,
        0 <= a < b < 31,
    ensures
        partition(range, 0).0 == range.0,
        partition(range, 30).1 == range.1,
        partition(range, a).0 <= partition(range, a).1,
        partition(range, b).0 <= partition(range, b).1,
        partition(range, a).1 < partition(range, b).0,
        partition(range, a).1 + 1 == partition(range, a + 1).0,
{
    lemma_partition(range, a, b);
    lemma_partition(range, b, a);
    lemma_partition(range, a, a + 1);
}

/// The cntlid slice of port process `index` of `ports`.
pub open spec fn port_slice(index: int, ports: int) -> (int, int) {
    let wide = CNTLID_MAX as int / ports;
    let min = 1 + index * wide;
    (
        min,
        if index + 1 == ports {
            CNTLID_MAX as int
        } else {
            min + wide - 1
        },
    )
}

/// A disjoint cntlid slice per port process: a subsystem exported on several
/// ports is served by several processes, and overlapping slices would hand a
/// multipath host duplicate cntlids for one subsystem, which it rejects.
pub fn port_cntlid_slice(index: u16, ports: u16) -> (r: (u16, u16))
    requires
        index < ports,
    ensures
        (r.0 as int, r.1 as int) == port_slice(index as int, ports as int),
{
    proof {
        if ports <= CNTLID_MAX {
            lemma_port_slice(index as int, ports as int);
        } else {
            vstd::arithmetic::div_mod::lemma_basic_div(CNTLID_MAX as int, ports as int);
            assert(index * (CNTLID_MAX as int / ports as int) == 0) by (nonlinear_arith)
                requires
                    CNTLID_MAX as int / ports as int == 0,
            ;
        }
    }
    let wide: u16 = CNTLID_MAX / ports;
    let min: u16 = (1 + index as u32 * wide as u32) as u16;
    let max: u16 = if index + 1 == ports {
        CNTLID_MAX
    } else {
        (min as u32 + wide as u32 - 1) as u16
    };
    (min, max)
}

proof fn lemma_port_slice(index: int, ports: int)
    requires
        0 <= index < ports <= CNTLID_MAX,
    ensures
        1 <= port_slice(index, ports).0 <= port_slice(index, ports).1 <= CNTLID_MAX,
        CNTLID_MAX as int / ports >= 1,
        index * (CNTLID_MAX as int / ports) <= CNTLID_MAX,
        0 <= index * (CNTLID_MAX as int / ports),
{
    let max = CNTLID_MAX as int;
    let w = max / ports;
    vstd::arithmetic::div_mod::lemma_fundamental_div_mod(max, ports);
    vstd::arithmetic::div_mod::lemma_mod_bound(max, ports);
    assert(w >= 1) by (nonlinear_arith)
        requires
            max == ports * w + max % ports,
            max % ports < ports,
            ports <= max,
    ;
    assert(0 <= index * w && index * w + w <= ports * w) by (nonlinear_arith)
        requires
            0 <= index < ports,
            w >= 1,
    ;
}

/// The slices of the port processes tile the cntlids from 1 on.
pub proof fn lemma_port_slices_tile(a: int, b: int, ports: int)
    requires
        0 <= a < b < ports <= CNTLID_MAX,
    ensures
        port_slice(0, ports).0 == 1,
        port_slice(ports - 1, ports).1 == CNTLID_MAX,
        port_slice(a, ports).0 <= port_slice(a, ports).1,
        port_slice(a, ports).1 < port_slice(b, ports).0,
        port_slice(a, ports).1 + 1 == port_slice(a + 1, ports).0,
{
    lemma_port_slice(a, ports);
    lemma_port_slice(b, ports);
    let w = CNTLID_MAX as int / ports;
    assert((a + 1) * w == a * w + w && (a + 1) * w <= b * w) by (nonlinear_arith)
        requires
            a < b,
            w >= 1,
    ;
}

/// Which of two slots a port's cntlid partition comes from: the one in the
/// lowest-vid volume, the same volume every target holding it picks.
pub fn lower_slot(held: Option<HolderSlot>, slot: Option<HolderSlot>) -> (r: Option<HolderSlot>)
    ensures
        r == (match (held, slot) {
            (Some(h), Some(s)) => if s.vid < h.vid {
                slot
            } else {
                held
            },
            (None, Some(s)) => slot,
            _ => held,
        }),
{
    match (held, slot) {
        (Some(h), Some(s)) => if s.vid < h.vid {
            slot
        } else {
            held
        },
        (None, Some(_)) => slot,
        (Some(_), None) => held,
        (None, None) => None,
    }
}

} // verus!
