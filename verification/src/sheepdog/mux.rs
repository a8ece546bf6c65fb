//! One multiplexed connection — the object-IO data path: which request is in
//! which slot, who may write to the wire, and where a response goes.
//!
//! Requests carry a client `id` the server echoes into the response, and
//! `sheep` answers in completion order — so responses arrive out of order and
//! are routed back to their caller by that id.
//!
//! Three pieces:
//!
//! * A slot table of in-flight requests: the id of a request is its slot and,
//!   above it, how often the slot has been used.
//! * A **send gate**: a request's header and its payload must reach the wire
//!   back to back, so a sender holds the send gate across its writes (FIFO).
//!   Nothing else about the connection is serialized.
//! * The response side: the connection's only reader claims the slot an id
//!   belongs to, fills the caller's buffer and publishes the result.
//!
//! Any IO error, EOF, or cancellation mid-send **poisons** the session: every
//! waiter fails with `EIO`, and the next request dials a fresh one.
//!
//! Callers are woken by slot: what an operation returns as slots is whom to
//! wake.

use vstd::prelude::*;

use crate::sheepdog::wire::EIO;

verus! {

/// Bytes drained per round trip when a response outruns the caller's buffer.
pub const SCRATCH_LEN: usize = 4096;

/// Ceiling on concurrent requests per connection: the request id is
/// `slot | (seq << 16)`, so the slot table cannot outgrow 16 bits.
pub const MAX_SLOTS: usize = 65536;

/// There is no slot left.
pub const EBUSY: i32 = 16;

/// Where a request has got to, so that dropping one mid-flight leaves the
/// connection in a state the next request can use.
#[derive(Debug, Clone, Copy, PartialEq, Eq, Structural)]
pub enum Phase {
    /// Waiting for the send gate: nothing has reached the wire.
    Queued,
    /// Writing the header/payload: the stream's framing is at stake.
    Sending,
    /// Fully sent, waiting for the response.
    Sent,
    /// Response in hand (or a failure already accounted for).
    Done,
}

/// The lifecycle of one entry in the slot table.
#[derive(Debug, Clone, Copy, PartialEq, Eq, Structural)]
pub enum SlotState {
    /// Unused, on the free list.
    Free,
    /// A request is queued, sending, or waiting for its response.
    Pending,
    /// The caller is gone; the response is discarded and the slot freed.
    Abandoned,
    /// The response arrived.
    Done {
        /// Its `SD_RES_*`.
        result: u32,
    },
    /// The connection died under this request.
    Failed {
        /// What to report.
        errno: i32,
    },
}

/// One in-flight request: where its response payload goes and how far it has
/// got.
#[derive(Debug, Clone, Copy, PartialEq, Eq)]
pub struct Slot {
    /// How far it has got.
    pub state: SlotState,
    /// Bumped on every reuse and carried in the high half of the request id,
    /// so a reply for a previous occupant can never be mistaken for this one.
    pub seq: u16,
    /// Room for the response payload (`None` = discard it).
    pub room: Option<usize>,
    /// Set while this slot sits in the send queue.
    pub queued: bool,
}

/// One connection, and everything in flight on it.
#[derive(Debug)]
pub struct Session {
    /// In-flight requests, indexed by the low half of the request id.
    pub slots: Vec<Slot>,
    /// Free slot indices (reused before the table grows).
    pub free: Vec<u16>,
    /// Slots not yet reaped by their caller — what tells the reader whether a
    /// response is still owed, and so whether to read or to park.
    pub inflight: usize,
    /// Set once, for good.
    pub poisoned: bool,
    /// The send gate is taken.
    pub sending: bool,
    /// The senders queued for it in arrival order.
    pub send_queue: Vec<u16>,
}

/// The id of a request in slot `idx` on its `seq`th use.
pub open spec fn id_of(idx: u16, seq: u16) -> u32 {
    (idx + seq * 0x1_0000) as u32
}

/// `s` without `x`.
pub open spec fn without(s: Seq<u16>, x: u16) -> Seq<u16> {
    if s.contains(x) {
        s.remove(s.index_of(x))
    } else {
        s
    }
}

/// `slots` with slot `idx` unused.
pub open spec fn emptied(slots: Seq<Slot>, idx: int) -> Seq<Slot> {
    slots.update(idx, Slot { state: SlotState::Free, room: None, ..slots[idx] })
}

/// The slots with `idx` handed back, where it is in use.
pub open spec fn released(slots: Seq<Slot>, idx: u16) -> Seq<Slot> {
    if slots[idx as int].state is Free {
        slots
    } else {
        emptied(slots, idx as int)
    }
}

/// The free list with `idx` handed back, where it is in use.
pub open spec fn returned(free: Seq<u16>, slots: Seq<Slot>, idx: u16) -> Seq<u16> {
    if slots[idx as int].state is Free {
        free
    } else {
        free.push(idx)
    }
}

/// What a slot becomes when the connection dies under it.
pub open spec fn failed(s: Slot) -> Slot {
    match s.state {
        SlotState::Pending => Slot {
            state: SlotState::Failed { errno: EIO },
            queued: false,
            ..s
        },
        SlotState::Abandoned => Slot { state: SlotState::Free, room: None, ..s },
        _ => s,
    }
}

/// Whether a response is still owed on a slot.
pub open spec fn owed(s: Slot) -> bool {
    s.state is Pending || s.state is Abandoned
}

/// The slots below `k` that wait for their response.
pub open spec fn pending_below(slots: Seq<Slot>, k: nat) -> Seq<u16>
    decreases k,
{
    if k == 0 {
        seq![]
    } else if slots[k - 1].state is Pending {
        pending_below(slots, (k - 1) as nat).push((k - 1) as u16)
    } else {
        pending_below(slots, (k - 1) as nat)
    }
}

/// The slots below `k` whose caller is gone.
pub open spec fn abandoned_below(slots: Seq<Slot>, k: nat) -> Seq<u16>
    decreases k,
{
    if k == 0 {
        seq![]
    } else if slots[k - 1].state is Abandoned {
        abandoned_below(slots, (k - 1) as nat).push((k - 1) as u16)
    } else {
        abandoned_below(slots, (k - 1) as nat)
    }
}

/// The slot a response id belongs to, if one is still owed there, and the room
/// its payload has.
pub open spec fn claim_of(slots: Seq<Slot>, id: u32) -> Option<(u16, Option<usize>)> {
    let idx = (id % 0x1_0000) as u16;
    let seq = (id / 0x1_0000) as u16;
    if idx < slots.len() && slots[idx as int].seq == seq && owed(slots[idx as int]) {
        Some((idx, slots[idx as int].room))
    } else {
        None
    }
}

/// The first of a queue.
pub open spec fn front(q: Seq<u16>) -> Option<u16> {
    if q.len() > 0 {
        Some(q[0])
    } else {
        None
    }
}

/// What comes of asking for the send gate.
#[derive(Debug, Clone, Copy, PartialEq, Eq, Structural)]
pub enum Gate {
    /// It is the caller's turn to send.
    Taken,
    /// The caller is in line.
    Wait,
    /// The connection is dead.
    Dead,
}

impl Session {
    /// The free list is the unused slots, each once; what is in flight is the
    /// rest; while the connection lives, the send queue is the queued slots,
    /// each once.
    pub open spec fn wf(&self) -> bool {
        &&& self.slots@.len() <= MAX_SLOTS
        &&& self.free@.no_duplicates()
        &&& forall|k: int|
            0 <= k < self.free@.len() ==> (#[trigger] self.free@[k]) < self.slots@.len()
                && self.slots@[self.free@[k] as int].state is Free
        &&& forall|i: int|
            0 <= i < self.slots@.len() && (#[trigger] self.slots@[i]).state is Free
                ==> self.free@.contains(i as u16)
        &&& self.inflight + self.free@.len() == self.slots@.len()
        &&& self.send_queue@.no_duplicates()
        &&& forall|k: int|
            0 <= k < self.send_queue@.len() ==> (#[trigger] self.send_queue@[k])
                < self.slots@.len() && (!self.poisoned
                ==> self.slots@[self.send_queue@[k] as int].queued)
        &&& forall|i: int|
            0 <= i < self.slots@.len() && (#[trigger] self.slots@[i]).queued ==> (!self.poisoned
                ==> self.send_queue@.contains(i as u16)) && (self.slots@[i].state is Pending
                || self.slots@[i].state is Done)
    }

    /// A fresh connection.
    pub fn new() -> (r: Session)
        ensures
            r.wf(),
            r.slots@ == Seq::<Slot>::empty(),
            r.free@ == Seq::<u16>::empty(),
            r.inflight == 0,
            !r.poisoned,
            !r.sending,
            r.send_queue@ == Seq::<u16>::empty(),
    {
        Session {
            slots: Vec::new(),
            free: Vec::new(),
            inflight: 0,
            poisoned: false,
            sending: false,
            send_queue: Vec::new(),
        }
    }

    /// Claim a slot for a request whose response payload has `room`, returning
    /// the request id to stamp into the header and the slot index.
    pub fn claim_slot(&mut self, room: Option<usize>) -> (r: Result<(u32, u16), i32>)
        requires
            old(self).wf(),
        ensures
            final(self).wf(),
            final(self).poisoned == old(self).poisoned,
            final(self).sending == old(self).sending,
            final(self).send_queue == old(self).send_queue,
            match r {
                Err(e) => {
                    &&& e == EBUSY
                    &&& old(self).free@.len() == 0 && old(self).slots@.len() == MAX_SLOTS
                    &&& final(self).slots@ == old(self).slots@
                    &&& final(self).free@ == old(self).free@
                    &&& final(self).inflight == old(self).inflight
                },
                Ok((id, idx)) => {
                    let seq = if old(self).free@.len() > 0 {
                        old(self).slots@[idx as int].seq
                    } else {
                        0
                    };
                    let slot = Slot {
                        state: SlotState::Pending,
                        seq: seq.wrapping_add(1),
                        room,
                        queued: false,
                    };
                    &&& final(self).inflight == old(self).inflight + 1
                    &&& id == id_of(idx, slot.seq)
                    &&& if old(self).free@.len() > 0 {
                        &&& idx == old(self).free@.last()
                        &&& final(self).free@ == old(self).free@.drop_last()
                        &&& final(self).slots@ == old(self).slots@.update(idx as int, slot)
                    } else {
                        &&& old(self).slots@.len() < MAX_SLOTS
                        &&& idx == old(self).slots@.len()
                        &&& final(self).free@ == old(self).free@
                        &&& final(self).slots@ == old(self).slots@.push(slot)
                    }
                },
            },
    {
        let n: usize = self.free.len();
        let idx: u16 = if n > 0 {
            let top: u16 = self.free[n - 1];
            self.free.truncate(n - 1);
            assert(self.free@ =~= old(self).free@.drop_last());
            top
        } else {
            let m: usize = self.slots.len();
            if m >= MAX_SLOTS {
                return Err(EBUSY);
            }
            self.slots.push(
                Slot { state: SlotState::Free, seq: 0, room: None, queued: false },
            );
            m as u16
        };
        let at: usize = idx as usize;
        let seq: u16 = self.slots[at].seq.wrapping_add(1);
        proof {
            if n > 0 {
                assert(old(self).slots@[old(self).free@[n - 1] as int].state is Free);
            }
        }
        self.slots[at] = Slot { state: SlotState::Pending, seq, room, queued: false };
        self.inflight = self.inflight + 1;
        proof {
            let was = old(self);
            assert forall|k: int| 0 <= k < self.free@.len() implies (#[trigger] self.free@[k])
                < self.slots@.len() && self.slots@[self.free@[k] as int].state is Free by {
                assert(self.free@[k] == was.free@[k]);
                if n > 0 {
                    assert(was.free@[k] != was.free@[n - 1]);
                }
            }
            assert forall|i: int|
                0 <= i < self.slots@.len() && (#[trigger] self.slots@[i]).state is Free implies
                self.free@.contains(i as u16) by {
                assert(i != idx);
                assert(was.slots@[i].state is Free);
                assert(was.free@.contains(i as u16));
                let k = choose|k: int| 0 <= k < was.free@.len() && was.free@[k] == i as u16;
                assert(k < self.free@.len());
                assert(self.free@[k] == i as u16);
            }
            assert forall|k: int| 0 <= k < self.send_queue@.len() implies (
            #[trigger] self.send_queue@[k]) < self.slots@.len()
                && (!self.poisoned ==> self.slots@[self.send_queue@[k] as int].queued) by {
                assert(!was.poisoned ==> was.slots@[was.send_queue@[k] as int].queued);
            }
            assert forall|i: int|
                0 <= i < self.slots@.len() && (#[trigger] self.slots@[i]).queued implies
                    (!self.poisoned ==> self.send_queue@.contains(i as u16)) && (
                    self.slots@[i].state is Pending || self.slots@[i].state is Done) by {
                assert(i != idx);
                assert(was.slots@[i].queued);
            }
        }
        Ok((idx as u32 + seq as u32 * 0x1_0000, idx))
    }

    /// Return a slot to the free list. The caller has its outcome (or never
    /// sent anything), so nothing is owed on it any more.
    pub fn free_slot(&mut self, idx: u16)
        requires
            old(self).wf(),
            idx < old(self).slots@.len(),
            !old(self).slots@[idx as int].queued,
        ensures
            final(self).wf(),
            final(self).poisoned == old(self).poisoned,
            final(self).sending == old(self).sending,
            final(self).send_queue == old(self).send_queue,
            if old(self).slots@[idx as int].state is Free {
                *final(self) == *old(self)
            } else {
                &&& final(self).slots@ == emptied(old(self).slots@, idx as int)
                &&& final(self).free@ == old(self).free@.push(idx)
                &&& final(self).inflight == old(self).inflight - 1
            },
    {
        let at: usize = idx as usize;
        let s = self.slots[at];
        match s.state {
            SlotState::Free => {
                return ;
            },
            _ => {},
        }
        proof {
            lemma_busy_slot(*self, at as int);
        }
        self.slots[at] = Slot { state: SlotState::Free, room: None, seq: s.seq, queued: s.queued };
        self.free.push(idx);
        self.inflight = self.inflight - 1;
        proof {
            let was = old(self);
            assert(!was.free@.contains(idx));
            assert forall|k: int| 0 <= k < self.free@.len() implies (#[trigger] self.free@[k])
                < self.slots@.len() && self.slots@[self.free@[k] as int].state is Free by {
                if k < was.free@.len() {
                    assert(self.free@[k] == was.free@[k]);
                }
            }
            assert forall|i: int|
                0 <= i < self.slots@.len() && (#[trigger] self.slots@[i]).state is Free implies
                self.free@.contains(i as u16) by {
                if i == idx {
                    assert(self.free@[was.free@.len() as int] == idx);
                } else {
                    assert(was.slots@[i].state is Free);
                    let k = choose|k: int| 0 <= k < was.free@.len() && was.free@[k] == i as u16;
                    assert(self.free@[k] == i as u16);
                }
            }
            assert forall|k: int| 0 <= k < self.send_queue@.len() implies (
            #[trigger] self.send_queue@[k]) < self.slots@.len()
                && (!self.poisoned ==> self.slots@[self.send_queue@[k] as int].queued) by {
                assert(!was.poisoned ==> was.slots@[was.send_queue@[k] as int].queued);
            }
            assert forall|i: int|
                0 <= i < self.slots@.len() && (#[trigger] self.slots@[i]).queued implies
                    (!self.poisoned ==> self.send_queue@.contains(i as u16)) && (
                    self.slots@[i].state is Pending || self.slots@[i].state is Done) by {
                assert(was.slots@[i].queued);
            }
        }
    }

    /// The caller of a sent request is gone: the response is still coming, so
    /// the slot stays claimed until the reader discards it. Where the outcome
    /// is already there, nothing is coming and the slot goes back.
    pub fn abandon(&mut self, idx: u16)
        requires
            old(self).wf(),
            idx < old(self).slots@.len(),
            !old(self).slots@[idx as int].queued,
        ensures
            final(self).wf(),
            final(self).poisoned == old(self).poisoned,
            final(self).sending == old(self).sending,
            final(self).send_queue == old(self).send_queue,
            ({
                let s = old(self).slots@[idx as int];
                match s.state {
                    SlotState::Pending => {
                        &&& final(self).slots@ == old(self).slots@.update(
                            idx as int,
                            Slot { state: SlotState::Abandoned, room: None, ..s },
                        )
                        &&& final(self).free == old(self).free
                        &&& final(self).inflight == old(self).inflight
                    },
                    SlotState::Done { .. } | SlotState::Failed { .. } => {
                        &&& final(self).slots@ == emptied(old(self).slots@, idx as int)
                        &&& final(self).free@ == old(self).free@.push(idx)
                        &&& final(self).inflight == old(self).inflight - 1
                    },
                    _ => *final(self) == *old(self),
                }
            }),
    {
        let at: usize = idx as usize;
        let s = self.slots[at];
        match s.state {
            SlotState::Pending => {
                self.slots[at] = Slot {
                    state: SlotState::Abandoned,
                    room: None,
                    seq: s.seq,
                    queued: s.queued,
                };
                proof {
                    let was = old(self);
                    assert forall|i: int|
                        0 <= i < self.slots@.len() && (
                        #[trigger] self.slots@[i]).state is Free implies self.free@.contains(
                        i as u16,
                    ) by {
                        assert(was.slots@[i].state is Free);
                    }
                    assert forall|k: int| 0 <= k < self.send_queue@.len() implies (
                    #[trigger] self.send_queue@[k]) < self.slots@.len()
                        && (!self.poisoned ==> self.slots@[self.send_queue@[k] as int].queued) by {
                        assert(!was.poisoned ==> was.slots@[was.send_queue@[k] as int].queued);
                    }
                    assert forall|i: int|
                        0 <= i < self.slots@.len() && (#[trigger] self.slots@[i]).queued implies
                    (!self.poisoned ==> self.send_queue@.contains(i as u16)) && (
                    self.slots@[i].state is Pending || self.slots@[i].state is Done) by {
                        assert(was.slots@[i].queued);
                    }
                }
            },
            SlotState::Done { .. } => self.free_slot(idx),
            SlotState::Failed { .. } => self.free_slot(idx),
            SlotState::Free => {},
            SlotState::Abandoned => {},
        }
    }

    /// Fail every unresolved request with `EIO`; where there is no caller left
    /// to tell, the slot goes back. Whom to wake is returned.
    fn fail_all(&mut self) -> (r: Vec<u16>)
        requires
            old(self).wf(),
            old(self).poisoned,
        ensures
            final(self).wf(),
            final(self).poisoned,
            final(self).sending == old(self).sending,
            final(self).send_queue == old(self).send_queue,
            final(self).slots@ == old(self).slots@.map_values(|s: Slot| failed(s)),
            final(self).free@ == old(self).free@ + abandoned_below(
                old(self).slots@,
                old(self).slots@.len(),
            ),
            r@ == pending_below(old(self).slots@, old(self).slots@.len()),
    {
        let n: usize = self.slots.len();
        let mut woken: Vec<u16> = Vec::new();
        let ghost was = old(self).slots@;
        assert(self.free@ =~= old(self).free@ + abandoned_below(was, 0));
        for k in 0..n
            invariant
                self.wf(),
                was == old(self).slots@,
                n == self.slots@.len() == was.len(),
                n <= MAX_SLOTS,
                self.poisoned,
                self.sending == old(self).sending,
                self.send_queue == old(self).send_queue,
                self.free@ == old(self).free@ + abandoned_below(was, k as nat),
                woken@ == pending_below(was, k as nat),
                forall|i: int| 0 <= i < k ==> #[trigger] self.slots@[i] == failed(was[i]),
                forall|i: int| k <= i < n ==> #[trigger] self.slots@[i] == was[i],
        {
            let s = self.slots[k];
            let ghost before = *self;
            match s.state {
                SlotState::Pending => {
                    self.slots[k] = Slot {
                        state: SlotState::Failed { errno: EIO },
                        seq: s.seq,
                        room: s.room,
                        queued: false,
                    };
                    woken.push(k as u16);
                    proof {
                        lemma_free_kept(before, *self);
                        assert forall|i: int|
                            0 <= i < self.slots@.len() && (
                            #[trigger] self.slots@[i]).queued implies self.slots@[i].state is Pending
                            || self.slots@[i].state is Done by {
                            assert(before.slots@[i].queued);
                        }
                    }
                },
                SlotState::Abandoned => {
                    self.free_slot(k as u16);
                    assert(self.free@ =~= old(self).free@ + abandoned_below(was, (k + 1) as nat));
                },
                _ => {},
            }
        }
        assert(self.slots@ =~= was.map_values(|s: Slot| failed(s)));
        woken
    }

    /// End this connection: fail everything on it, and let nobody onto the wire
    /// any more. Idempotent. `None` if it had ended before; else whom to wake,
    /// the reader beside them: those who waited for a response, and those in
    /// line to send.
    pub fn poison(&mut self) -> (r: Option<Vec<u16>>)
        requires
            old(self).wf(),
        ensures
            final(self).wf(),
            final(self).poisoned,
            final(self).sending == old(self).sending,
            match r {
                None => old(self).poisoned && *final(self) == *old(self),
                Some(woken) => {
                    &&& !old(self).poisoned
                    &&& final(self).send_queue@ == Seq::<u16>::empty()
                    &&& final(self).slots@ == old(self).slots@.map_values(|s: Slot| failed(s))
                    &&& final(self).free@ == old(self).free@ + abandoned_below(
                        old(self).slots@,
                        old(self).slots@.len(),
                    )
                    &&& woken@ == pending_below(old(self).slots@, old(self).slots@.len()) + old(
                        self,
                    ).send_queue@
                },
            },
    {
        if self.poisoned {
            return None;
        }
        self.poisoned = true;
        let mut woken: Vec<u16> = self.fail_all();
        let mut queued: Vec<u16> = Vec::new();
        std::mem::swap(&mut queued, &mut self.send_queue);
        woken.append(&mut queued);
        Some(woken)
    }

    /// The connection's reader is gone, and the connection with it. Whom to
    /// wake is returned; those in line to send find it dead when they ask.
    pub fn reader_gone(&mut self) -> (r: Vec<u16>)
        requires
            old(self).wf(),
        ensures
            final(self).wf(),
            final(self).poisoned,
            final(self).sending == old(self).sending,
            final(self).send_queue == old(self).send_queue,
            final(self).slots@ == old(self).slots@.map_values(|s: Slot| failed(s)),
            final(self).free@ == old(self).free@ + abandoned_below(
                old(self).slots@,
                old(self).slots@.len(),
            ),
            r@ == pending_below(old(self).slots@, old(self).slots@.len()),
    {
        self.poisoned = true;
        self.fail_all()
    }

    // --- send gate ---------------------------------------------------------

    /// Take the send gate, in arrival order, so that the header and payload of the
    /// request in slot `idx` are written back to back.
    pub fn acquire_send(&mut self, idx: u16) -> (r: Gate)
        requires
            old(self).wf(),
            idx < old(self).slots@.len(),
            !old(self).poisoned ==> old(self).slots@[idx as int].state is Pending
                || old(self).slots@[idx as int].state is Done,
        ensures
            final(self).wf(),
            final(self).free == old(self).free,
            final(self).inflight == old(self).inflight,
            final(self).poisoned == old(self).poisoned,
            ({
                let q = old(self).send_queue@;
                let s = old(self).slots@[idx as int];
                if old(self).poisoned {
                    r == Gate::Dead && *final(self) == *old(self)
                } else if !old(self).sending && (q.len() == 0 || q[0] == idx) {
                    &&& r == Gate::Taken
                    &&& final(self).sending
                    &&& final(self).send_queue@ == (if q.len() == 0 {
                        q
                    } else {
                        q.drop_first()
                    })
                    &&& final(self).slots@ == old(self).slots@.update(
                        idx as int,
                        Slot { queued: false, ..s },
                    )
                } else {
                    &&& r == Gate::Wait
                    &&& final(self).sending == old(self).sending
                    &&& final(self).send_queue@ == (if s.queued {
                        q
                    } else {
                        q.push(idx)
                    })
                    &&& final(self).slots@ == old(self).slots@.update(
                        idx as int,
                        Slot { queued: true, ..s },
                    )
                }
            }),
    {
        if self.poisoned {
            return Gate::Dead;
        }
        let at: usize = idx as usize;
        let s = self.slots[at];
        let n: usize = self.send_queue.len();
        let ghost was = *self;
        if !self.sending && (n == 0 || self.send_queue[0] == idx) {
            if n > 0 {
                let _front: u16 = self.send_queue.remove(0);
            }
            self.slots[at] = Slot { queued: false, state: s.state, seq: s.seq, room: s.room };
            self.sending = true;
            proof {
                let q = was.send_queue@;
                if n > 0 {
                    assert(self.send_queue@ =~= q.drop_first());
                } else {
                    if s.queued {
                        assert(q.contains(idx));
                    }
                }
                assert(self.slots@ =~= was.slots@.update(
                    at as int,
                    Slot { queued: false, ..s },
                ));
                lemma_queue_change(was, *self, idx);
            }
            return Gate::Taken;
        }
        if !s.queued {
            self.slots[at] = Slot { queued: true, state: s.state, seq: s.seq, room: s.room };
            self.send_queue.push(idx);
            proof {
                let q = was.send_queue@;
                if q.contains(idx) {
                    let k = choose|k: int| 0 <= k < q.len() && q[k] == idx;
                    assert(was.slots@[q[k] as int].queued);
                }
                assert forall|k: int| 0 <= k < self.send_queue@.len() implies (
                #[trigger] self.send_queue@[k]) < self.slots@.len()
                    && (!self.poisoned ==> self.slots@[self.send_queue@[k] as int].queued) by {
                    if k < q.len() {
                        assert(was.slots@[q[k] as int].queued);
                    }
                }
                assert forall|i: int|
                    0 <= i < self.slots@.len() && (#[trigger] self.slots@[i]).queued implies
                    (!self.poisoned ==> self.send_queue@.contains(i as u16)) && (
                    self.slots@[i].state is Pending || self.slots@[i].state is Done) by {
                    if i == at {
                        assert(self.send_queue@[q.len() as int] == idx);
                    } else {
                        assert(was.slots@[i].queued);
                        let k = choose|k: int| 0 <= k < q.len() && q[k] == i as u16;
                        assert(self.send_queue@[k] == i as u16);
                    }
                }
                lemma_free_kept(was, *self);
            }
        } else {
            assert(self.slots@ =~= was.slots@.update(at as int, Slot { queued: true, ..s }));
        }
        Gate::Wait
    }

    /// Hand the send gate to the next sender in line, who is to be woken.
    pub fn release_send(&mut self) -> (r: Option<u16>)
        requires
            old(self).wf(),
        ensures
            final(self).wf(),
            *final(self) == (Session { sending: false, ..*old(self) }),
            r == front(old(self).send_queue@),
    {
        self.sending = false;
        if self.send_queue.len() > 0 {
            Some(self.send_queue[0])
        } else {
            None
        }
    }

    /// Drop a cancelled sender out of the queue, and pass the send gate on if it
    /// was the one holding everyone else up: whom to wake is returned.
    pub fn unqueue_send(&mut self, idx: u16) -> (r: Option<u16>)
        requires
            old(self).wf(),
            idx < old(self).slots@.len(),
        ensures
            final(self).wf(),
            final(self).free == old(self).free,
            final(self).inflight == old(self).inflight,
            final(self).poisoned == old(self).poisoned,
            final(self).sending == old(self).sending,
            ({
                let s = old(self).slots@[idx as int];
                if !s.queued {
                    r is None && *final(self) == *old(self)
                } else {
                    &&& final(self).send_queue@ == without(old(self).send_queue@, idx)
                    &&& final(self).slots@ == old(self).slots@.update(
                        idx as int,
                        Slot { queued: false, ..s },
                    )
                    &&& r == (if old(self).sending {
                        None
                    } else {
                        front(final(self).send_queue@)
                    })
                }
            }),
    {
        let at: usize = idx as usize;
        let s = self.slots[at];
        if !s.queued {
            return None;
        }
        let ghost was = *self;
        let n: usize = self.send_queue.len();
        let mut k: usize = 0;
        while k < n && self.send_queue[k] != idx
            invariant
                k <= n == self.send_queue@.len(),
                *self == was,
                forall|j: int| 0 <= j < k ==> #[trigger] self.send_queue@[j] != idx,
            decreases n - k,
        {
            k = k + 1;
        }
        if k < n {
            let _gone: u16 = self.send_queue.remove(k);
        }
        self.slots[at] = Slot { queued: false, state: s.state, seq: s.seq, room: s.room };
        proof {
            let q = was.send_queue@;
            if q.contains(idx) {
                assert(q[q.index_of(idx)] == idx);
                assert(q.index_of(idx) == k);
            }
            lemma_queue_change(was, *self, idx);
        }
        if !self.sending && self.send_queue.len() > 0 {
            Some(self.send_queue[0])
        } else {
            None
        }
    }

    // --- response side -----------------------------------------------------

    /// Find the slot a response id belongs to, if it is still a live one, and
    /// the room its payload has.
    pub fn claim(&self, id: u32) -> (r: Option<(u16, Option<usize>)>)
        requires
            self.wf(),
        ensures
            r == claim_of(self.slots@, id),
    {
        let idx: u16 = (id % 0x1_0000) as u16;
        let seq: u16 = (id / 0x1_0000) as u16;
        if idx as usize >= self.slots.len() {
            return None;
        }
        let s = self.slots[idx as usize];
        if s.seq != seq {
            return None;
        }
        match s.state {
            SlotState::Pending => Some((idx, s.room)),
            SlotState::Abandoned => Some((idx, s.room)),
            _ => None,
        }
    }

    /// Publish a response to its caller, who is to be woken (or reclaim an
    /// abandoned slot).
    pub fn complete(&mut self, idx: u16, result: u32) -> (r: Option<u16>)
        requires
            old(self).wf(),
            idx < old(self).slots@.len(),
            old(self).slots@[idx as int].state is Done ==> !old(self).slots@[idx as int].queued,
        ensures
            final(self).wf(),
            final(self).poisoned == old(self).poisoned,
            final(self).sending == old(self).sending,
            final(self).send_queue == old(self).send_queue,
            ({
                let s = old(self).slots@[idx as int];
                match s.state {
                    SlotState::Pending => {
                        &&& r == Some(idx)
                        &&& final(self).slots@ == old(self).slots@.update(
                            idx as int,
                            Slot { state: SlotState::Done { result }, ..s },
                        )
                        &&& final(self).free == old(self).free
                        &&& final(self).inflight == old(self).inflight
                    },
                    SlotState::Free => r is None && *final(self) == *old(self),
                    _ => {
                        &&& r is None
                        &&& final(self).slots@ == emptied(old(self).slots@, idx as int)
                        &&& final(self).free@ == old(self).free@.push(idx)
                        &&& final(self).inflight == old(self).inflight - 1
                    },
                }
            }),
    {
        let at: usize = idx as usize;
        let s = self.slots[at];
        let pending = match s.state {
            SlotState::Pending => true,
            _ => false,
        };
        if !pending {
            self.free_slot(idx);
            return None;
        }
        let ghost was = *self;
        self.slots[at] = Slot {
            state: SlotState::Done { result },
            seq: s.seq,
            room: s.room,
            queued: s.queued,
        };
        proof {
            lemma_free_kept(was, *self);
            assert forall|k: int| 0 <= k < self.send_queue@.len() implies (
            #[trigger] self.send_queue@[k]) < self.slots@.len()
                && (!self.poisoned ==> self.slots@[self.send_queue@[k] as int].queued) by {
                assert(!was.poisoned ==> was.slots@[was.send_queue@[k] as int].queued);
            }
            assert forall|i: int|
                0 <= i < self.slots@.len() && (#[trigger] self.slots@[i]).queued implies
                    (!self.poisoned ==> self.send_queue@.contains(i as u16)) && (
                    self.slots@[i].state is Pending || self.slots@[i].state is Done) by {
                assert(was.slots@[i].queued);
            }
        }
        Some(idx)
    }

    /// A request's outcome, once there is one.
    pub fn outcome(&self, idx: u16) -> (r: Option<Result<u32, i32>>)
        requires
            idx < self.slots@.len(),
        ensures
            r == (match self.slots@[idx as int].state {
                SlotState::Done { result } => Some(Ok::<u32, i32>(result)),
                SlotState::Failed { errno } => Some(Err(errno)),
                _ => None,
            }),
    {
        match self.slots[idx as usize].state {
            SlotState::Done { result } => Some(Ok(result)),
            SlotState::Failed { errno } => Some(Err(errno)),
            _ => None,
        }
    }

    /// What the reader does next: it goes once the connection is dead, parks
    /// while nothing is owed — so that an idle thread has no op armed —, and
    /// reads otherwise.
    pub fn reader_next(&self) -> (r: Reader)
        ensures
            r == (if self.poisoned {
                Reader::Leave
            } else if self.inflight == 0 {
                Reader::Park
            } else {
                Reader::Read
            }),
    {
        if self.poisoned {
            Reader::Leave
        } else if self.inflight == 0 {
            Reader::Park
        } else {
            Reader::Read
        }
    }

    /// A request is given up in `phase`. Before its header has reached the
    /// wire that costs nothing; mid-send it ends the connection, whose framing
    /// would be unknowable; after that the response is left to be discarded.
    /// Whom to wake is returned.
    pub fn drop_request(&mut self, idx: u16, phase: Phase) -> (r: Vec<u16>)
        requires
            old(self).wf(),
            idx < old(self).slots@.len(),
            !(phase is Queued) ==> !old(self).slots@[idx as int].queued,
        ensures
            final(self).wf(),
            final(self).sending == old(self).sending,
            final(self).poisoned == (old(self).poisoned || phase is Sending),
            ({
                let slots = old(self).slots@;
                let free = old(self).free@;
                match phase {
                    Phase::Queued => {
                        // The next in line is let through.
                        let out = slots.update(
                            idx as int,
                            Slot { queued: false, ..slots[idx as int] },
                        );
                        let queue = if slots[idx as int].queued {
                            without(old(self).send_queue@, idx)
                        } else {
                            old(self).send_queue@
                        };
                        &&& final(self).slots@ == released(out, idx)
                        &&& final(self).free@ == returned(free, out, idx)
                        &&& final(self).send_queue@ == queue
                        &&& r@ == (if slots[idx as int].queued && !old(self).sending && queue.len()
                            > 0 {
                            seq![queue[0]]
                        } else {
                            Seq::<u16>::empty()
                        })
                    },
                    Phase::Sending => if old(self).poisoned {
                        &&& final(self).slots@ == released(slots, idx)
                        &&& final(self).free@ == returned(free, slots, idx)
                        &&& final(self).send_queue@ == old(self).send_queue@
                        &&& r@ == Seq::<u16>::empty()
                    } else {
                        let dead = slots.map_values(|s: Slot| failed(s));
                        &&& final(self).slots@ == released(dead, idx)
                        &&& final(self).free@ == returned(
                            free + abandoned_below(slots, slots.len()),
                            dead,
                            idx,
                        )
                        &&& final(self).send_queue@ == Seq::<u16>::empty()
                        &&& r@ == pending_below(slots, slots.len()) + old(self).send_queue@
                    },
                    Phase::Sent => {
                        &&& if slots[idx as int].state is Pending {
                            &&& final(self).slots@ == slots.update(
                                idx as int,
                                Slot {
                                    state: SlotState::Abandoned,
                                    room: None,
                                    ..slots[idx as int]
                                },
                            )
                            &&& final(self).free@ == free
                        } else if slots[idx as int].state is Abandoned {
                            final(self).slots@ == slots && final(self).free@ == free
                        } else {
                            &&& final(self).slots@ == released(slots, idx)
                            &&& final(self).free@ == returned(free, slots, idx)
                        }
                        &&& final(self).send_queue@ == old(self).send_queue@
                        &&& r@ == Seq::<u16>::empty()
                    },
                    Phase::Done => {
                        &&& final(self).slots@ == released(slots, idx)
                        &&& final(self).free@ == returned(free, slots, idx)
                        &&& final(self).send_queue@ == old(self).send_queue@
                        &&& r@ == Seq::<u16>::empty()
                    },
                }
            }),
    {
        let mut woken: Vec<u16> = Vec::new();
        match phase {
            Phase::Queued => {
                match self.unqueue_send(idx) {
                    Some(next) => {
                        woken.push(next);
                        assert(woken@ =~= seq![next]);
                    },
                    None => {},
                }
                self.free_slot(idx);
            },
            Phase::Sending => {
                match self.poison() {
                    Some(w) => {
                        woken = w;
                    },
                    None => {},
                }
                self.free_slot(idx);
            },
            Phase::Sent => self.abandon(idx),
            Phase::Done => self.free_slot(idx),
        }
        woken
    }
}

/// What a connection's reader does next.
#[derive(Debug, Clone, Copy, PartialEq, Eq, Structural)]
pub enum Reader {
    /// Go: the connection is dead.
    Leave,
    /// Wait until something is owed.
    Park,
    /// Read the next response.
    Read,
}

/// Bytes of a response payload of `len` that go to the caller's buffer; the
/// rest of the buffer is zeroed (the server may trim trailing zeroes).
pub fn payload_taken(len: usize, room: Option<usize>) -> (r: usize)
    ensures
        r == (match room {
            None => 0,
            Some(n) => if len < n {
                len
            } else {
                n
            },
        }),
{
    match room {
        None => 0,
        Some(n) => if len < n {
            len
        } else {
            n
        },
    }
}

/// Bytes of a response payload of `len` that still have to come off the wire
/// once `copied` went to the caller, so that the next header is where the
/// stream says it is.
pub fn payload_left(len: usize, copied: usize) -> (r: usize)
    ensures
        r == (if copied < len {
            len - copied
        } else {
            0
        }),
{
    if copied < len {
        len - copied
    } else {
        0
    }
}

/// The free list stays right where no slot becomes unused or taken into use.
proof fn lemma_free_kept(was: Session, now: Session)
    requires
        was.wf(),
        now.free == was.free,
        now.slots@.len() == was.slots@.len(),
        forall|i: int|
            0 <= i < was.slots@.len() ==> ((#[trigger] now.slots@[i]).state is Free
                <==> was.slots@[i].state is Free),
    ensures
        forall|k: int|
            0 <= k < now.free@.len() ==> (#[trigger] now.free@[k]) < now.slots@.len()
                && now.slots@[now.free@[k] as int].state is Free,
        forall|i: int|
            0 <= i < now.slots@.len() && (#[trigger] now.slots@[i]).state is Free
                ==> now.free@.contains(i as u16),
{
    assert forall|k: int| 0 <= k < now.free@.len() implies (#[trigger] now.free@[k])
        < now.slots@.len() && now.slots@[now.free@[k] as int].state is Free by {
        assert(was.slots@[was.free@[k] as int].state is Free);
    }
    assert forall|i: int|
        0 <= i < now.slots@.len() && (#[trigger] now.slots@[i]).state is Free implies
        now.free@.contains(i as u16) by {
        assert(was.slots@[i].state is Free);
    }
}

/// A session stays right when slot `idx` leaves the queue, or was not in it.
proof fn lemma_queue_change(was: Session, now: Session, idx: u16)
    requires
        was.wf(),
        idx < was.slots@.len(),
        now.free == was.free,
        now.inflight == was.inflight,
        now.poisoned == was.poisoned,
        now.slots@ == was.slots@.update(
            idx as int,
            Slot { queued: false, ..was.slots@[idx as int] },
        ),
        was.slots@[idx as int].queued && was.send_queue@.contains(idx) ==> exists|k: int|
            0 <= k < was.send_queue@.len() && #[trigger] was.send_queue@[k] == idx
                && now.send_queue@ == was.send_queue@.remove(k),
        !(was.slots@[idx as int].queued && was.send_queue@.contains(idx)) ==> now.send_queue@
            == was.send_queue@,
    ensures
        now.wf(),
{
    lemma_free_kept(was, now);
    let q = was.send_queue@;
    let p = now.send_queue@;
    if was.slots@[idx as int].queued && q.contains(idx) {
        let at = choose|k: int|
            0 <= k < q.len() && #[trigger] q[k] == idx && p == q.remove(k);
        assert forall|k: int| 0 <= k < p.len() implies (#[trigger] p[k]) < now.slots@.len()
            && (!now.poisoned ==> now.slots@[p[k] as int].queued) by {
            let j = if k < at {
                k
            } else {
                k + 1
            };
            assert(p[k] == q[j]);
            assert(q[j] != q[at]);
            assert(!was.poisoned ==> was.slots@[q[j] as int].queued);
        }
        assert forall|i: int, j: int| 0 <= i < j < p.len() implies p[i] != p[j] by {
            let a = if i < at {
                i
            } else {
                i + 1
            };
            let b = if j < at {
                j
            } else {
                j + 1
            };
            assert(q[a] != q[b]);
        }
        assert forall|i: int|
            0 <= i < now.slots@.len() && (#[trigger] now.slots@[i]).queued implies (!now.poisoned
            ==> p.contains(i as u16)) && (now.slots@[i].state is Pending
            || now.slots@[i].state is Done) by {
            assert(i != idx);
            assert(was.slots@[i].queued);
            if !now.poisoned {
                let k = choose|k: int| 0 <= k < q.len() && q[k] == i as u16;
                let j = if k < at {
                    k
                } else {
                    k - 1
                };
                assert(p[j] == i as u16);
            }
        }
    } else {
        assert forall|k: int| 0 <= k < p.len() implies (#[trigger] p[k]) < now.slots@.len()
            && (!now.poisoned ==> now.slots@[p[k] as int].queued) by {
            assert(!was.poisoned ==> was.slots@[q[k] as int].queued);
        }
        assert forall|i: int|
            0 <= i < now.slots@.len() && (#[trigger] now.slots@[i]).queued implies (!now.poisoned
            ==> p.contains(i as u16)) && (now.slots@[i].state is Pending
            || now.slots@[i].state is Done) by {
            assert(was.slots@[i].queued);
        }
    }
}

/// A slot that is in use is not on the free list, and something is in flight.
proof fn lemma_busy_slot(s: Session, i: int)
    requires
        s.wf(),
        0 <= i < s.slots@.len(),
        !(s.slots@[i].state is Free),
    ensures
        !s.free@.contains(i as u16),
        s.inflight > 0,
{
    if s.free@.contains(i as u16) {
        let k = choose|k: int| 0 <= k < s.free@.len() && s.free@[k] == i as u16;
        assert(s.slots@[s.free@[k] as int].state is Free);
    }
    let all = Seq::new(s.slots@.len(), |k: int| k as u16);
    let f = s.free@.to_set();
    assert(f.subset_of(all.to_set().remove(i as u16))) by {
        assert forall|x: u16| f.contains(x) implies all.to_set().remove(i as u16).contains(x) by {
            let k = choose|k: int| 0 <= k < s.free@.len() && s.free@[k] == x;
            assert(s.free@[k] < s.slots@.len());
            assert(all[x as int] == x);
        }
    }
    assert(all.no_duplicates());
    assert(all[i] == i as u16);
    all.unique_seq_to_set();
    s.free@.unique_seq_to_set();
    vstd::set_lib::lemma_len_subset(f, all.to_set().remove(i as u16));
}

// ---------------------------------------------------------------------------
// Laws
// ---------------------------------------------------------------------------

/// No two requests in flight share an id.
pub proof fn lemma_ids_differ(s: Session, i: u16, j: u16)
    requires
        i < s.slots@.len(),
        j < s.slots@.len(),
        i != j,
    ensures
        id_of(i, s.slots@[i as int].seq) != id_of(j, s.slots@[j as int].seq),
{
}

/// The response to a request that is still owed one finds its slot.
pub proof fn lemma_response_finds_request(slots: Seq<Slot>, idx: u16)
    requires
        idx < slots.len(),
        owed(slots[idx as int]),
    ensures
        claim_of(slots, id_of(idx, slots[idx as int].seq)) == Some(
            (idx, slots[idx as int].room),
        ),
{
    let id = id_of(idx, slots[idx as int].seq);
    assert(id % 0x1_0000 == idx);
    assert(id / 0x1_0000 == slots[idx as int].seq);
}

/// A reply for a slot's previous occupant is never mistaken for its present
/// one: a slot that is taken again answers to another id.
pub proof fn lemma_stale_response_finds_nobody(slots: Seq<Slot>, idx: u16, seq: u16)
    requires
        idx < slots.len(),
        slots[idx as int].seq == seq.wrapping_add(1),
    ensures
        claim_of(slots, id_of(idx, seq)) is None,
{
    let id = id_of(idx, seq);
    assert(id % 0x1_0000 == idx);
    assert(id / 0x1_0000 == seq);
}

/// Nobody waits on a dead connection.
pub proof fn lemma_none_pending_after_failure(slots: Seq<Slot>, i: int)
    requires
        0 <= i < slots.len(),
    ensures
        !owed(slots.map_values(|s: Slot| failed(s))[i]),
{
}

/// What the end of a connection does to a slot: whoever waits gets an IO error,
/// what nobody waits for any more is free again, and an outcome that is there
/// stays what it is. The slot's number of uses does not change.
pub proof fn lemma_failed(s: Slot)
    ensures
        failed(s).seq == s.seq,
        s.state is Pending ==> failed(s).state == (SlotState::Failed { errno: 5 }) && !failed(
            s,
        ).queued,
        s.state is Abandoned ==> failed(s).state is Free,
        s.state is Done || s.state is Failed || s.state is Free ==> failed(s) == s,
{
}

/// Those who are woken at the end of a connection are those who wait for their
/// response, and the slots that come free are those nobody waits on.
pub proof fn lemma_woken(slots: Seq<Slot>, k: nat, i: u16)
    requires
        k <= slots.len(),
        k <= 0x1_0000,
    ensures
        pending_below(slots, k).contains(i) <==> i < k && slots[i as int].state is Pending,
        abandoned_below(slots, k).contains(i) <==> i < k && slots[i as int].state is Abandoned,
    decreases k,
{
    if k > 0 {
        let m = (k - 1) as nat;
        lemma_woken(slots, m, i);
        lemma_contains_push(pending_below(slots, m), m as u16, i);
        lemma_contains_push(abandoned_below(slots, m), m as u16, i);
    }
}

proof fn lemma_contains_push(s: Seq<u16>, x: u16, i: u16)
    ensures
        s.push(x).contains(i) <==> s.contains(i) || i == x,
{
    if s.push(x).contains(i) {
        let k = choose|k: int| 0 <= k < s.push(x).len() && s.push(x)[k] == i;
        if k < s.len() {
            assert(s[k] == i);
        }
    }
    if s.contains(i) {
        let k = choose|k: int| 0 <= k < s.len() && s[k] == i;
        assert(s.push(x)[k] == i);
    }
    assert(s.push(x)[s.len() as int] == x);
}

/// A sender that leaves the line is the only one to leave it, and the others keep
/// their order.
pub proof fn lemma_leaves_line(q: Seq<u16>, x: u16, y: u16)
    requires
        q.no_duplicates(),
    ensures
        without(q, x).contains(y) <==> q.contains(y) && y != x,
        without(q, x) == q.filter(|z: u16| z != x),
{
    if q.contains(x) {
        let k = q.index_of(x);
        assert(q[k] == x);
        let r = q.remove(k);
        if r.contains(y) {
            let j = choose|j: int| 0 <= j < r.len() && r[j] == y;
            if j < k {
                assert(q[j] == y);
            } else {
                assert(q[j + 1] == y);
            }
        }
        if q.contains(y) && y != x {
            let j = choose|j: int| 0 <= j < q.len() && q[j] == y;
            if j < k {
                assert(r[j] == y);
            } else {
                assert(r[j - 1] == y);
            }
        }
    }
    lemma_line_filter(q, x);
}

proof fn lemma_line_filter(q: Seq<u16>, x: u16)
    requires
        q.no_duplicates(),
    ensures
        without(q, x) == q.filter(|z: u16| z != x),
    decreases q.len(),
{
    reveal(Seq::filter);
    let keep = |z: u16| z != x;
    if q.len() > 0 {
        let p = q.drop_last();
        assert(p.no_duplicates());
        lemma_line_filter(p, x);
        if q.last() == x {
            assert(!p.contains(x)) by {
                if p.contains(x) {
                    let j = choose|j: int| 0 <= j < p.len() && p[j] == x;
                    assert(q[j] == q[q.len() - 1]);
                }
            }
            assert(q[q.len() - 1] == x);
            assert(q.contains(x));
            let k = q.index_of(x);
            assert(q[k] == x);
            assert(k == q.len() - 1);
            assert(q.remove(k) =~= p);
        } else if p.contains(x) {
            let j = choose|j: int| 0 <= j < p.len() && p[j] == x;
            assert(q[j] == x);
            assert(q.contains(x));
            let k = q.index_of(x);
            let l = p.index_of(x);
            assert(q[k] == x && p[l] == x && q[l] == x);
            assert(k == l);
            assert(q.remove(k) =~= p.remove(l).push(q.last()));
        } else {
            assert(!q.contains(x)) by {
                if q.contains(x) {
                    let j = choose|j: int| 0 <= j < q.len() && q[j] == x;
                    assert(p[j] == x);
                }
            }
            assert(q =~= p.push(q.last()));
        }
    } else {
        assert(q.filter(keep) =~= q);
    }
}

/// A slot that is handed back is free and on the free list, once; it keeps its
/// number of uses, and no other slot notices.
pub proof fn lemma_handed_back(slots: Seq<Slot>, free: Seq<u16>, idx: u16, i: int)
    requires
        idx < slots.len(),
        0 <= i < slots.len(),
    ensures
        released(slots, idx).len() == slots.len(),
        released(slots, idx)[idx as int].state is Free,
        released(slots, idx)[idx as int].seq == slots[idx as int].seq,
        i != idx ==> released(slots, idx)[i] == slots[i],
        !(slots[idx as int].state is Free) ==> returned(free, slots, idx).contains(idx)
            && returned(free, slots, idx).len() == free.len() + 1,
        slots[idx as int].state is Free ==> returned(free, slots, idx) == free,
{
    lemma_contains_push(free, idx, idx);
}

/// A response belongs to the slot in the low half of its id, where that slot is
/// in the use that the high half counts and somebody still waits, or has left
/// without it; to nothing otherwise.
pub proof fn lemma_claims(slots: Seq<Slot>, id: u32, idx: u16, seq: u16)
    requires
        id == idx + 0x1_0000 * seq,
    ensures
        idx < slots.len() && slots[idx as int].seq == seq && (slots[idx as int].state is Pending
            || slots[idx as int].state is Abandoned) ==> claim_of(slots, id) == Some(
            (idx, slots[idx as int].room),
        ),
        idx >= slots.len() || slots[idx as int].seq != seq || slots[idx as int].state is Free
            || slots[idx as int].state is Done || slots[idx as int].state is Failed ==> claim_of(
            slots,
            id,
        ) is None,
{
}

/// Whoever came first is sent first.
pub proof fn lemma_front(q: Seq<u16>, x: u16)
    ensures
        front(q) is None <==> q.len() == 0,
        q.len() > 0 ==> front(q) == Some(q[0]) && front(q.push(x)) == front(q),
        q.len() == 0 ==> front(q.push(x)) == Some(x),
{
}

} // verus!
