//! Command dispatch: routes a received SQE to its handler. Until a queue has
//! handlers, every command completes with INVALID_OPCODE, so the slot/response
//! machinery can be exercised end to end.

use vstd::prelude::*;

use crate::nvme::{status, Cqe, Sqe};
use crate::queue;
use crate::queue::NvmeQueue;

verus! {

/// Whether `r` turns `sqe` away on `before`, which is then `after`.
pub open spec fn turned_away(
    r: (Cqe, u32),
    sqe: Sqe,
    before: NvmeQueue,
    after: NvmeQueue,
) -> bool {
    let head = queue::next_sqhd(before.sqhd, before.sqsize, before.sqhd_disabled);
    &&& r.1 == 0
    &&& r.0 == (Cqe {
        result: 0,
        sqhd: head,
        sqid: before.qid,
        cid: sqe.cid,
        status: status::INVALID_OPCODE | status::DNR,
    })
    &&& after == (NvmeQueue {
        sqhd: if before.sqhd_disabled {
            before.sqhd
        } else {
            head
        },
        ..before
    })
}

/// Dispatch one command on an IO queue. Returns the CQE and the number of C2H
/// data bytes left in the slot buffer for the send path.
pub fn execute_io(queue: &mut NvmeQueue, tag: u16, sqe: &Sqe) -> (r: (Cqe, u32))
    requires
        old(queue).wf(),
        old(queue).turns(),
    ensures
        final(queue).wf(),
        turned_away(r, *sqe, *old(queue), *final(queue)),
{
    let code: u16 = status::INVALID_OPCODE | status::DNR;
    let head: u16 = queue.advance_sqhd();
    (Cqe::new(0, head, queue.qid, sqe.cid, code), 0)
}

/// Dispatch one command on the admin queue.
pub fn execute_admin(queue: &mut NvmeQueue, tag: u16, sqe: &Sqe) -> (r: (Cqe, u32))
    requires
        old(queue).wf(),
        old(queue).turns(),
    ensures
        final(queue).wf(),
        turned_away(r, *sqe, *old(queue), *final(queue)),
{
    let code: u16 = status::INVALID_OPCODE | status::DNR;
    let head: u16 = queue.advance_sqhd();
    (Cqe::new(0, head, queue.qid, sqe.cid, code), 0)
}

/// A command that is turned away is answered as its own, on its queue, as one of
/// an unknown opcode that need not be sent again; it has no data and counts
/// nowhere, and of the queue only the head moves.
pub proof fn lemma_turned_away(r: (Cqe, u32), sqe: Sqe, before: NvmeQueue, after: NvmeQueue)
    requires
        turned_away(r, sqe, before, after),
        before.wf(),
        before.turns(),
    ensures
        r.1 == 0,
        r.0.status == 0x4001,
        r.0.cid == sqe.cid,
        r.0.sqid == before.qid,
        r.0.result == 0,
        before.sqhd_disabled ==> r.0.sqhd == 0 && after.sqhd == before.sqhd,
        !before.sqhd_disabled ==> r.0.sqhd == after.sqhd && (after.sqhd == before.sqhd + 1
            || after.sqhd == 0 && before.sqhd + 1 == before.sqsize),
        after.slots == before.slots,
        after.stats == before.stats,
        after.qid == before.qid,
        after.sqsize == before.sqsize,
        after.sqhd_disabled == before.sqhd_disabled,
{
    assert(1u16 | 0x4000u16 == 0x4001u16) by (bit_vector);
    if !before.sqhd_disabled {
        let n = before.sqsize as int;
        if before.sqhd + 1 < n {
            vstd::arithmetic::div_mod::lemma_small_mod((before.sqhd + 1) as nat, n as nat);
        } else {
            assert(before.sqhd + 1 == n);
            vstd::arithmetic::div_mod::lemma_mod_self_0(n);
        }
    }
}

} // verus!
