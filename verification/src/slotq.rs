//! The command slots of one queue: a tag per slot, and the life of a command
//! in it, from claim to release.

use vstd::prelude::*;

use crate::buf;
use crate::bytes;
use crate::nvme;
use crate::nvme::Sqe;
use crate::pool::SlotData;

verus! {

/// Where a slot's command is.
#[derive(Debug, Clone, Copy, PartialEq, Eq, Structural)]
pub enum SlotState {
    /// No command; the tag is free.
    Free,
    /// Claimed; the command or its payload is still arriving.
    Receiving,
    /// Complete; waits for its task.
    Ready,
    /// Its task runs it.
    Executing,
    /// Done; the response is on its way out.
    Responding,
}

/// One command slot.
#[derive(Debug)]
pub struct Slot {
    /// Where its command is.
    pub state: SlotState,
    /// The command, once it is known.
    pub cmd: Sqe,
    /// The data buffer.
    pub data: SlotData,
    /// Payload bytes received into the buffer.
    pub data_len: u32,
}

impl Slot {
    /// Where the slot's command is.
    pub fn state(&self) -> (r: SlotState)
        ensures
            r == self.state,
    {
        self.state
    }

    /// The received SQE.
    pub fn sqe(&self) -> (r: Sqe)
        ensures
            r == self.cmd,
    {
        self.cmd
    }

    /// Park the SQE while its in-capsule payload is still arriving (state
    /// stays `Receiving`; [`SlotArray::submit`] delivers it).
    pub fn stash_sqe(&mut self, sqe: Sqe)
        ensures
            *final(self) == (Slot { cmd: sqe, ..*old(self) }),
    {
        self.cmd = sqe;
    }

    /// The SQE parked by [`Slot::stash_sqe`].
    pub fn stashed_sqe(&self) -> (r: Sqe)
        ensures
            r == self.cmd,
    {
        self.cmd
    }
}

/// A slot that holds no command yet, with a zeroed buffer of `buf_size` bytes.
pub open spec fn fresh(slot: Slot, buf_size: usize) -> bool {
    &&& slot.state == SlotState::Free
    &&& slot.cmd == nvme::blank()
    &&& slot.data@ == bytes::zeroes(buf::granules(buf_size as nat))
    &&& slot.data.wf()
    &&& slot.data.runs().len() == 1
    &&& slot.data_len == 0
}

/// The tags of `slots` in `state`.
pub open spec fn tags_in(slots: Seq<Slot>, state: SlotState) -> Set<int> {
    Set::new(|t: int| 0 <= t < slots.len() && slots[t].state == state)
}

/// The slots of a queue and the tags that are free, the next one last.
#[derive(Debug)]
pub struct SlotArray {
    slots: Vec<Slot>,
    free: Vec<u16>,
    executing: usize,
}

impl View for SlotArray {
    type V = Seq<Slot>;

    closed spec fn view(&self) -> Seq<Slot> {
        self.slots@
    }
}

impl SlotArray {
    /// The free tags, in the order they came back.
    pub closed spec fn free_list(&self) -> Seq<u16> {
        self.free@
    }

    /// The free list holds exactly the tags of free slots, once each, and the
    /// count is that of the slots that execute.
    pub closed spec fn wf(&self) -> bool {
        &&& self.slots@.len() <= u16::MAX
        &&& self.free@.no_duplicates()
        &&& forall|i: int|
            0 <= i < self.free@.len() ==> (#[trigger] self.free@[i]) < self.slots@.len()
                && self.slots@[self.free@[i] as int].state == SlotState::Free
        &&& forall|t: int|
            0 <= t < self.slots@.len() && (#[trigger] self.slots@[t]).state == SlotState::Free
                ==> self.free@.contains(t as u16)
        &&& self.executing == tags_in(self.slots@, SlotState::Executing).len()
    }

    /// A queue's slots, each with a buffer of `slot_buf_size` bytes.
    pub fn new(sqsize: u16, slot_buf_size: usize) -> (r: SlotArray)
        requires
            buf::granules(slot_buf_size as nat) <= isize::MAX,
        ensures
            r.wf(),
            r@.len() == sqsize,
            r.free_list() == Seq::new(sqsize as nat, |t: int| t as u16),
            forall|t: int| 0 <= t < sqsize ==> fresh(#[trigger] r@[t], slot_buf_size),
    {
        let mut slots: Vec<Slot> = Vec::new();
        let mut free: Vec<u16> = Vec::new();
        for t in 0..sqsize
            invariant
                buf::granules(slot_buf_size as nat) <= isize::MAX,
                slots@.len() == t == free@.len(),
                forall|i: int| 0 <= i < t ==> #[trigger] free@[i] == i,
                forall|i: int| 0 <= i < t ==> fresh(#[trigger] slots@[i], slot_buf_size),
        {
            slots.push(
                Slot {
                    state: SlotState::Free,
                    cmd: Sqe::zeroed(),
                    data: SlotData::owned(slot_buf_size),
                    data_len: 0,
                },
            );
            free.push(t);
        }
        proof {
            assert forall|t: int|
                0 <= t < slots@.len() && (#[trigger] slots@[t]).state
                    == SlotState::Free implies free@.contains(t as u16) by {
                assert(free@[t] == t as u16);
            }
            assert(tags_in(slots@, SlotState::Executing) =~= Set::empty());
        }
        SlotArray { slots, free, executing: 0 }
    }

    /// Number of slots.
    pub fn len(&self) -> (r: usize)
        ensures
            r == self@.len(),
    {
        self.slots.len()
    }

    /// The slot of `tag`.
    pub fn slot(&self, tag: u16) -> (r: &Slot)
        requires
            tag < self@.len(),
        ensures
            *r == self@[tag as int],
    {
        &self.slots[tag as usize]
    }

    /// Take a free tag for a command that starts to arrive; `None` where all
    /// are in use.
    pub fn claim_tag(&mut self) -> (r: Option<u16>)
        requires
            old(self).wf(),
        ensures
            final(self).wf(),
            match r {
                Some(t) => {
                    &&& t < old(self)@.len()
                    &&& old(self)@[t as int].state == SlotState::Free
                    &&& final(self)@ == old(self)@.update(
                        t as int,
                        Slot { state: SlotState::Receiving, ..old(self)@[t as int] },
                    )
                    &&& old(self).free_list().len() > 0
                    &&& final(self).free_list() == old(self).free_list().drop_last()
                    &&& t == old(self).free_list().last()
                },
                None => {
                    &&& forall|t: int|
                        0 <= t < old(self)@.len() ==> (#[trigger] old(self)@[t]).state
                            != SlotState::Free
                    &&& final(self)@ == old(self)@
                    &&& final(self).free_list() == old(self).free_list()
                },
            },
    {
        match self.free.pop() {
            None => {
                proof {
                    assert forall|t: int| 0 <= t < self.slots@.len() implies (
                    #[trigger] self.slots@[t]).state != SlotState::Free by {
                        if self.slots@[t].state == SlotState::Free {
                            assert(self.free@.contains(t as u16));
                        }
                    }
                }
                None
            },
            Some(t) => {
                let ghost before = self.slots@;
                let ghost list = old(self).free@;
                assert(list[list.len() - 1] == t);
                assert(self.free@ =~= list.drop_last());
                self.slots[t as usize].state = SlotState::Receiving;
                proof {
                    assert forall|s: int|
                        0 <= s < self.slots@.len() && (#[trigger] self.slots@[s]).state
                            == SlotState::Free implies self.free@.contains(s as u16) by {
                        assert(before[s].state == SlotState::Free);
                        assert(list.contains(s as u16));
                        let i = choose|i: int| 0 <= i < list.len() && list[i] == s as u16;
                        assert(self.free@[i] == s as u16);
                    }
                    assert(tags_in(self.slots@, SlotState::Executing) =~= tags_in(
                        before,
                        SlotState::Executing,
                    ));
                    assert(self.slots@ =~= before.update(
                        t as int,
                        Slot { state: SlotState::Receiving, ..before[t as int] },
                    ));
                }
                Some(t)
            },
        }
    }

    /// The command of `tag` is complete: deliver it.
    pub fn submit(&mut self, tag: u16, sqe: Sqe)
        requires
            old(self).wf(),
            tag < old(self)@.len(),
            old(self)@[tag as int].state == SlotState::Receiving,
        ensures
            final(self).wf(),
            final(self)@ == old(self)@.update(
                tag as int,
                Slot { state: SlotState::Ready, cmd: sqe, ..old(self)@[tag as int] },
            ),
            final(self).free_list() == old(self).free_list(),
    {
        let ghost before = self.slots@;
        self.slots[tag as usize].state = SlotState::Ready;
        self.slots[tag as usize].cmd = sqe;
        proof {
            assert(tags_in(self.slots@, SlotState::Executing) =~= tags_in(
                before,
                SlotState::Executing,
            ));
            assert(self.slots@ =~= before.update(
                tag as int,
                Slot { state: SlotState::Ready, cmd: sqe, ..before[tag as int] },
            ));
        }
    }

    /// Park the SQE of `tag` while its in-capsule payload is still arriving.
    pub fn stash_sqe(&mut self, tag: u16, sqe: Sqe)
        requires
            old(self).wf(),
            tag < old(self)@.len(),
        ensures
            final(self).wf(),
            final(self)@ == old(self)@.update(
                tag as int,
                Slot { cmd: sqe, ..old(self)@[tag as int] },
            ),
            final(self).free_list() == old(self).free_list(),
    {
        let ghost before = self.slots@;
        self.slots[tag as usize].stash_sqe(sqe);
        proof {
            assert(tags_in(self.slots@, SlotState::Executing) =~= tags_in(
                before,
                SlotState::Executing,
            ));
            assert(self.slots@ =~= before.update(
                tag as int,
                Slot { cmd: sqe, ..before[tag as int] },
            ));
        }
    }

    /// Write `src` into the buffer of `tag` from `off` on, and say that
    /// `data_len` bytes of payload are in it.
    pub fn fill(&mut self, tag: u16, off: usize, src: &[u8], data_len: u32)
        requires
            old(self).wf(),
            tag < old(self)@.len(),
            old(self)@[tag as int].data.wf(),
            off + src@.len() <= old(self)@[tag as int].data@.len(),
            data_len <= old(self)@[tag as int].data@.len(),
        ensures
            final(self).wf(),
            final(self).free_list() == old(self).free_list(),
            final(self)@.len() == old(self)@.len(),
            forall|t: int|
                0 <= t < old(self)@.len() && t != tag ==> #[trigger] final(self)@[t]
                    == old(self)@[t],
            ({
                let was = old(self)@[tag as int];
                let is = final(self)@[tag as int];
                &&& is.state == was.state
                &&& is.cmd == was.cmd
                &&& is.data@ == bytes::overwritten(was.data@, off as int, src@)
                &&& is.data.runs() == was.data.runs()
                &&& is.data.wf()
                &&& is.data_len == data_len
            }),
    {
        let ghost before = self.slots@;
        self.slots[tag as usize].data.write_at(off, src);
        self.slots[tag as usize].data_len = data_len;
        proof {
            assert forall|t: int| 0 <= t < before.len() implies (#[trigger] self.slots@[t]).state
                == before[t].state by {}
            assert(tags_in(self.slots@, SlotState::Executing) =~= tags_in(
                before,
                SlotState::Executing,
            ));
        }
    }

    /// The command of `tag`, to be run, once it is ready.
    pub fn await_command(&mut self, tag: u16) -> (r: Option<Sqe>)
        requires
            old(self).wf(),
            tag < old(self)@.len(),
        ensures
            final(self).wf(),
            final(self).free_list() == old(self).free_list(),
            match r {
                Some(sqe) => {
                    &&& old(self)@[tag as int].state == SlotState::Ready
                    &&& sqe == old(self)@[tag as int].cmd
                    &&& final(self)@ == old(self)@.update(
                        tag as int,
                        Slot { state: SlotState::Executing, ..old(self)@[tag as int] },
                    )
                },
                None => {
                    &&& old(self)@[tag as int].state != SlotState::Ready
                    &&& *final(self) == *old(self)
                },
            },
    {
        if self.slots[tag as usize].state != SlotState::Ready {
            return None;
        }
        let ghost before = self.slots@;
        self.slots[tag as usize].state = SlotState::Executing;
        proof {
            let was = tags_in(before, SlotState::Executing);
            assert(!was.contains(tag as int));
            lemma_executing_finite(before);
            assert(tags_in(self.slots@, SlotState::Executing) =~= was.insert(tag as int));
            assert(self.slots@ =~= before.update(
                tag as int,
                Slot { state: SlotState::Executing, ..before[tag as int] },
            ));
        }
        self.executing = self.executing + 1;
        Some(self.slots[tag as usize].cmd)
    }

    /// The command of `tag` is done; its response goes out.
    pub fn begin_respond(&mut self, tag: u16)
        requires
            old(self).wf(),
            tag < old(self)@.len(),
            old(self)@[tag as int].state == SlotState::Executing,
        ensures
            final(self).wf(),
            final(self).free_list() == old(self).free_list(),
            final(self)@ == old(self)@.update(
                tag as int,
                Slot { state: SlotState::Responding, ..old(self)@[tag as int] },
            ),
    {
        let ghost before = self.slots@;
        self.slots[tag as usize].state = SlotState::Responding;
        proof {
            let was = tags_in(before, SlotState::Executing);
            lemma_executing_finite(before);
            assert(was.contains(tag as int));
            assert(tags_in(self.slots@, SlotState::Executing) =~= was.remove(tag as int));
            assert(self.slots@ =~= before.update(
                tag as int,
                Slot { state: SlotState::Responding, ..before[tag as int] },
            ));
        }
        self.executing = self.executing - 1;
    }

    /// The response of `tag` is out; the tag is free again.
    pub fn release_tag(&mut self, tag: u16)
        requires
            old(self).wf(),
            tag < old(self)@.len(),
            old(self)@[tag as int].state == SlotState::Responding,
        ensures
            final(self).wf(),
            final(self).free_list() == old(self).free_list().push(tag),
            final(self)@ == old(self)@.update(
                tag as int,
                Slot { state: SlotState::Free, ..old(self)@[tag as int] },
            ),
    {
        let ghost before = self.slots@;
        let ghost list = self.free@;
        self.slots[tag as usize].state = SlotState::Free;
        self.free.push(tag);
        proof {
            assert forall|i: int| 0 <= i < list.len() implies list[i] != tag by {
                assert(before[list[i] as int].state == SlotState::Free);
            }
            assert forall|i: int| 0 <= i < self.free@.len() implies (#[trigger] self.free@[i])
                < self.slots@.len() && self.slots@[self.free@[i] as int].state
                == SlotState::Free by {
                if i < list.len() {
                    assert(self.free@[i] == list[i]);
                }
            }
            assert forall|s: int|
                0 <= s < self.slots@.len() && (#[trigger] self.slots@[s]).state
                    == SlotState::Free implies self.free@.contains(s as u16) by {
                if s == tag {
                    assert(self.free@[list.len() as int] == tag);
                } else {
                    assert(before[s].state == SlotState::Free);
                    assert(list.contains(s as u16));
                    let i = choose|i: int| 0 <= i < list.len() && list[i] == s as u16;
                    assert(self.free@[i] == s as u16);
                }
            }
            assert(tags_in(self.slots@, SlotState::Executing) =~= tags_in(
                before,
                SlotState::Executing,
            ));
            assert(self.slots@ =~= before.update(
                tag as int,
                Slot { state: SlotState::Free, ..before[tag as int] },
            ));
        }
    }

    /// Every slot is free.
    pub fn idle(&self) -> (r: bool)
        requires
            self.wf(),
        ensures
            r == (forall|t: int|
                0 <= t < self@.len() ==> (#[trigger] self@[t]).state == SlotState::Free),
    {
        let n: usize = self.slots.len();
        for t in 0..n
            invariant
                n == self.slots@.len(),
                forall|i: int|
                    0 <= i < t ==> (#[trigger] self.slots@[i]).state == SlotState::Free,
        {
            if self.slots[t].state != SlotState::Free {
                return false;
            }
        }
        true
    }

    /// Commands whose task runs them.
    pub fn executing(&self) -> (r: usize)
        requires
            self.wf(),
        ensures
            r == tags_in(self@, SlotState::Executing).len(),
    {
        self.executing
    }

    /// Free tags there are.
    pub fn free_tags(&self) -> (r: usize)
        ensures
            r == self.free_list().len(),
    {
        self.free.len()
    }
}

proof fn lemma_executing_finite(slots: Seq<Slot>)
    ensures
        tags_in(slots, SlotState::Executing).finite(),
        tags_in(slots, SlotState::Executing).len() <= slots.len(),
{
    let all = vstd::set_lib::set_int_range(0, slots.len() as int);
    vstd::set_lib::lemma_int_range(0, slots.len() as int);
    assert(tags_in(slots, SlotState::Executing).subset_of(all));
    vstd::set_lib::lemma_set_subset_finite(all, tags_in(slots, SlotState::Executing));
    vstd::set_lib::lemma_len_subset(tags_in(slots, SlotState::Executing), all);
}

/// A slot that was not used yet is free, holds no command, and has room for what
/// was asked, every byte of it zero.
pub proof fn lemma_fresh(slot: Slot, buf_size: usize, i: int)
    requires
        fresh(slot, buf_size),
    ensures
        slot.state == SlotState::Free,
        slot.data_len == 0,
        slot.cmd.opcode == 0 && slot.cmd.cid == 0 && slot.cmd.nsid == 0,
        slot.data@.len() >= buf_size,
        0 <= i < slot.data@.len() ==> slot.data@[i] == 0,
{
    buf::lemma_granules(buf_size as nat);
}

/// A tag is in a state exactly where its slot is.
pub proof fn lemma_tags_in(slots: Seq<Slot>, state: SlotState, t: int)
    ensures
        tags_in(slots, state).contains(t) <==> 0 <= t < slots.len() && slots[t].state == state,
{
}

} // verus!
