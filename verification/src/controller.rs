//! Controller state: CC/CSTS register machine, cntlid allocation, and the
//! registry used to route IO-queue Connects.

use std::collections::HashMap;

use vstd::prelude::*;
use vstd::std_specs::hash::*;

use crate::nvme::{cc, csts};
use crate::text::{owned, same_text};

verus! {

broadcast use group_hash_axioms;

/// Fabrics register state for one controller, per the NVMe enable sequence:
/// host writes CC.EN, controller raises CSTS.RDY; shutdown via CC.SHN →
/// CSTS.SHST_COMPLETE.
#[derive(Debug)]
pub struct RegisterState {
    /// CC as last written.
    pub cc: u32,
    /// CSTS as it stands.
    pub csts: u32,
    /// CAP advertised to the host (MQES in entries-1, CQR, TO, etc.).
    pub cap: u64,
}

/// Outcome of a CC write the surrounding controller must act on.
#[derive(Debug, Clone, Copy, PartialEq, Eq, Structural)]
pub enum CcEffect {
    /// No state change.
    Unchanged,
    /// EN 0→1: controller becomes ready.
    Enabled,
    /// Shutdown notification: tear down queues, then report complete.
    Shutdown,
    /// EN 1→0 (controller reset).
    Disabled,
}

/// What writing `value` over `was` does: a shutdown notification goes before
/// any change of EN.
pub open spec fn cc_effect(was: u32, value: u32) -> CcEffect {
    if value & cc::SHN_MASK != 0 {
        CcEffect::Shutdown
    } else if was & cc::EN == 0 && value & cc::EN != 0 {
        CcEffect::Enabled
    } else if was & cc::EN != 0 && value & cc::EN == 0 {
        CcEffect::Disabled
    } else {
        CcEffect::Unchanged
    }
}

/// The status register after an effect.
pub open spec fn csts_after(csts: u32, effect: CcEffect) -> u32 {
    match effect {
        CcEffect::Shutdown => csts | csts::SHST_COMPLETE,
        CcEffect::Enabled => csts | csts::RDY,
        CcEffect::Disabled => csts & !csts::RDY,
        CcEffect::Unchanged => csts,
    }
}

impl RegisterState {
    /// CAP: MQES = qsize-1, CQR set, timeout 15s (units of 500ms), no DSTRD.
    pub fn new(max_queue_entries: u16) -> (r: Self)
        requires
            max_queue_entries > 0,
        ensures
            r.cc == 0,
            r.csts == 0,
            r.cap == (max_queue_entries - 1) + 0x1_0000 + 30 * 0x100_0000,
    {
        let mqes: u64 = (max_queue_entries - 1) as u64;
        assert(mqes | 0x1_0000u64 | 0x1e00_0000u64 == mqes + 0x1_0000 + 0x1e00_0000)
            by (bit_vector)
            requires
                mqes < 0x1_0000,
        ;
        RegisterState { cc: 0, csts: 0, cap: mqes | 0x1_0000 | 0x1e00_0000 }
    }

    /// Current CC register value.
    pub fn cc(&self) -> (r: u32)
        ensures
            r == self.cc,
    {
        self.cc
    }

    /// Current CSTS register value.
    pub fn csts(&self) -> (r: u32)
        ensures
            r == self.csts,
    {
        self.csts
    }

    /// Apply a Property Set of CC.
    pub fn write_cc(&mut self, value: u32) -> (r: CcEffect)
        ensures
            r == cc_effect(old(self).cc, value),
            final(self).cc == value,
            final(self).csts == csts_after(old(self).csts, r),
            final(self).cap == old(self).cap,
    {
        let was_enabled: bool = self.cc & cc::EN != 0;
        let now_enabled: bool = value & cc::EN != 0;
        let shutdown: bool = value & cc::SHN_MASK != 0;
        self.cc = value;
        if shutdown {
            self.csts = self.csts | csts::SHST_COMPLETE;
            return CcEffect::Shutdown;
        }
        if !was_enabled && now_enabled {
            self.csts = self.csts | csts::RDY;
            return CcEffect::Enabled;
        }
        if was_enabled && !now_enabled {
            self.csts = self.csts & !csts::RDY;
            return CcEffect::Disabled;
        }
        CcEffect::Unchanged
    }

    /// Latch a fatal error (CSTS.CFS), e.g. keep-alive expiry.
    pub fn fatal_error(&mut self)
        ensures
            final(self).csts == old(self).csts | csts::CFS,
            final(self).cc == old(self).cc,
            final(self).cap == old(self).cap,
    {
        self.csts = self.csts | csts::CFS;
    }

    /// CSTS.RDY is set.
    pub fn ready(&self) -> (r: bool)
        ensures
            r == (self.csts & csts::RDY != 0),
    {
        self.csts & csts::RDY != 0
    }
}

/// Enabling makes the controller ready, a reset takes that back, a shutdown
/// reports complete, and writing the same value again changes nothing.
pub proof fn lemma_enable_sequence(was: u32, value: u32, csts: u32)
    ensures
        cc_effect(was, value) == CcEffect::Enabled ==> csts_after(csts, CcEffect::Enabled)
            & csts::RDY != 0,
        cc_effect(was, value) == CcEffect::Disabled ==> csts_after(csts, CcEffect::Disabled)
            & csts::RDY == 0,
        cc_effect(was, value) == CcEffect::Shutdown ==> csts_after(csts, CcEffect::Shutdown)
            & csts::SHST_COMPLETE != 0,
        cc_effect(was, value) != CcEffect::Shutdown ==> cc_effect(value, value) == CcEffect::Unchanged,
{
    assert((csts | 1u32) & 1u32 != 0 && (csts & !1u32) & 1u32 == 0 && (csts | 8u32) & 8u32 != 0)
        by (bit_vector);
}

/// A latched fatal error stays, whatever CC is written.
pub proof fn lemma_fatal_stays(csts: u32, effect: CcEffect)
    ensures
        (csts | csts::CFS) & csts::CFS != 0,
        csts & csts::CFS != 0 ==> csts_after(csts, effect) & csts::CFS != 0,
{
    assert((csts | 2u32) & 2u32 != 0 && (csts & 2u32 != 0 ==> (csts | 8u32) & 2u32 != 0 && (csts
        | 1u32) & 2u32 != 0 && (csts & !1u32) & 2u32 != 0)) by (bit_vector);
}

/// A live controller's routing info.
#[derive(Debug)]
pub struct ControllerEntry {
    /// Controller id.
    pub cntlid: u16,
    /// The subsystem it belongs to.
    pub subsys_nqn: String,
    /// The host it was made for.
    pub hostnqn: String,
    /// IO queues installed so far (Connect-time duplicate detection).
    pub installed_qids: Vec<u16>,
}

/// A controller as the registry knows it.
pub struct Controller {
    /// Controller id.
    pub cntlid: u16,
    /// The subsystem it belongs to.
    pub subsys_nqn: Seq<char>,
    /// The host it was made for.
    pub hostnqn: Seq<char>,
    /// Queues installed so far, in order.
    pub qids: Seq<u16>,
}

impl View for ControllerEntry {
    type V = Controller;

    open spec fn view(&self) -> Controller {
        Controller {
            cntlid: self.cntlid,
            subsys_nqn: self.subsys_nqn@,
            hostnqn: self.hostnqn@,
            qids: self.installed_qids@,
        }
    }
}

impl Clone for ControllerEntry {
    fn clone(&self) -> (r: Self)
        ensures
            r@ == self@,
    {
        let mut installed_qids: Vec<u16> = Vec::new();
        let n: usize = self.installed_qids.len();
        for i in 0..n
            invariant
                n == self.installed_qids@.len(),
                installed_qids@ == self.installed_qids@.take(i as int),
        {
            installed_qids.push(self.installed_qids[i]);
            assert(installed_qids@ =~= self.installed_qids@.take(i as int + 1));
        }
        assert(installed_qids@ =~= self.installed_qids@);
        ControllerEntry {
            cntlid: self.cntlid,
            subsys_nqn: owned(self.subsys_nqn.as_str()),
            hostnqn: owned(self.hostnqn.as_str()),
            installed_qids,
        }
    }
}

/// IO-queue Connect failure reasons.
#[derive(Debug, Clone, Copy, PartialEq, Eq, Structural)]
pub enum IoConnectError {
    /// No controller of that id.
    UnknownController,
    /// The controller belongs to another host.
    HostMismatch,
    /// The queue is there already.
    QueueExists,
}

/// Ids run from 1 to this.
pub const MAX_CNTLID: u16 = 0xfffe;

/// The id tried `off` tries after the first, which starts at `start`.
pub open spec fn scan_id(start: u16, off: int) -> u16 {
    (1 + (start + off + 0xffff) % 0x1_0000 % 0xfffe) as u16
}

/// Whether try `off` is the first to find an id nobody has.
pub open spec fn first_free(taken: Set<u16>, start: u16, off: int) -> bool {
    &&& 0 <= off < 0xfffe
    &&& !taken.contains(scan_id(start, off))
    &&& forall|o: int| 0 <= o < off ==> taken.contains(#[trigger] scan_id(start, o))
}

/// Controller registry; the view maps ids to controllers. Control-plane rate
/// only (Connect / teardown).
pub struct Registry {
    next_cntlid: u16,
    controllers: HashMap<u16, ControllerEntry>,
}

impl View for Registry {
    type V = Map<u16, Controller>;

    closed spec fn view(&self) -> Map<u16, Controller> {
        self.controllers@.map_values(|e: ControllerEntry| e@)
    }
}

impl Registry {
    /// Where the next search for a free id starts.
    pub closed spec fn next(&self) -> u16 {
        if self.next_cntlid == 0 {
            1
        } else {
            self.next_cntlid
        }
    }

    /// Every controller is filed under its id, which is a valid one, and has
    /// its admin queue; and the next search starts at an id.
    pub open spec fn wf(&self) -> bool {
        &&& 1 <= self.next()
        &&& forall|id: u16| #[trigger]
            self@.contains_key(id) ==> {
                &&& 1 <= id <= MAX_CNTLID
                &&& self@[id].cntlid == id
                &&& self@[id].qids.contains(0)
            }
    }

    /// No controllers.
    pub fn new() -> (r: Registry)
        ensures
            r.wf(),
            r@ == Map::<u16, Controller>::empty(),
            r.next() == 1,
    {
        let r = Registry { next_cntlid: 1, controllers: HashMap::new() };
        assert(r@ =~= Map::<u16, Controller>::empty());
        r
    }

    /// Allocate a cntlid for a new controller (admin Connect).
    pub fn allocate(&mut self, subsys_nqn: &str, hostnqn: &str) -> (r: Option<u16>)
        requires
            old(self).wf(),
        ensures
            final(self).wf(),
            match r {
                Some(id) => {
                    &&& exists|off: int|
                        #![trigger scan_id(old(self).next(), off)]
                        first_free(old(self)@.dom(), old(self).next(), off) && id == scan_id(
                            old(self).next(),
                            off,
                        )
                    &&& 1 <= id <= MAX_CNTLID
                    &&& !old(self)@.contains_key(id)
                    &&& final(self)@ == old(self)@.insert(
                        id,
                        Controller {
                            cntlid: id,
                            subsys_nqn: subsys_nqn@,
                            hostnqn: hostnqn@,
                            qids: seq![0u16],
                        },
                    )
                    &&& final(self).next() == id + 1
                },
                None => {
                    &&& forall|off: int|
                        0 <= off < 0xfffe ==> old(self)@.contains_key(
                            #[trigger] scan_id(old(self).next(), off),
                        )
                    &&& *final(self) == *old(self)
                },
            },
    {
        // Linear scan for a free id: controller counts are tiny.
        let start: u16 = if self.next_cntlid == 0 {
            1
        } else {
            self.next_cntlid
        };
        let mut off: u16 = 0;
        while off < 0xfffe
            invariant
                off <= 0xfffe,
                *self == *old(self),
                self.wf(),
                start == self.next(),
                1 <= start,
                forall|o: int| 0 <= o < off ==> self@.contains_key(#[trigger] scan_id(start, o)),
            decreases 0xfffe - off,
        {
            let at: u16 = start.wrapping_add(off).wrapping_sub(1) % 0xfffe;
            let cntlid: u16 = 1 + at;
            assert(cntlid == scan_id(start, off as int));
            if !self.controllers.contains_key(&cntlid) {
                let mut installed_qids: Vec<u16> = Vec::new();
                installed_qids.push(0);
                let entry = ControllerEntry {
                    cntlid,
                    subsys_nqn: owned(subsys_nqn),
                    hostnqn: owned(hostnqn),
                    installed_qids,
                };
                assert(!self@.contains_key(cntlid));
                assert(first_free(self@.dom(), start, off as int));
                let ghost e = entry@;
                assert(e.qids =~= seq![0u16]);
                assert(e.qids[0] == 0);
                self.controllers.insert(cntlid, entry);
                self.next_cntlid = cntlid.wrapping_add(1);
                assert(self@ =~= old(self)@.insert(cntlid, e));
                return Some(cntlid);
            }
            assert(self@.contains_key(cntlid));
            off = off + 1;
        }
        None
    }

    /// Validate an IO-queue Connect: cntlid exists, same host, qid fresh.
    pub fn install_io_queue(&mut self, cntlid: u16, hostnqn: &str, qid: u16) -> (r: Result<
        ControllerEntry,
        IoConnectError,
    >)
        requires
            old(self).wf(),
        ensures
            final(self).wf(),
            final(self).next() == old(self).next(),
            match r {
                Ok(e) => {
                    &&& old(self)@.contains_key(cntlid)
                    &&& old(self)@[cntlid].hostnqn == hostnqn@
                    &&& !old(self)@[cntlid].qids.contains(qid)
                    &&& e@ == (Controller {
                        qids: old(self)@[cntlid].qids.push(qid),
                        ..old(self)@[cntlid]
                    })
                    &&& final(self)@ == old(self)@.insert(cntlid, e@)
                },
                Err(e) => {
                    &&& final(self)@ == old(self)@
                    &&& e == (if !old(self)@.contains_key(cntlid) {
                        IoConnectError::UnknownController
                    } else if old(self)@[cntlid].hostnqn != hostnqn@ {
                        IoConnectError::HostMismatch
                    } else {
                        IoConnectError::QueueExists
                    })
                    &&& e == IoConnectError::QueueExists ==> old(self)@[cntlid].qids.contains(qid)
                },
            },
    {
        let found = self.controllers.get(&cntlid);
        let mut entry: ControllerEntry = match found {
            Some(e) => e.clone(),
            None => {
                return Err(IoConnectError::UnknownController);
            },
        };
        assert(entry@ == self@[cntlid]);
        if !same_text(entry.hostnqn.as_str(), hostnqn) {
            return Err(IoConnectError::HostMismatch);
        }
        let n: usize = entry.installed_qids.len();
        for i in 0..n
            invariant
                n == entry.installed_qids@.len(),
                forall|j: int| 0 <= j < i ==> entry.installed_qids@[j] != qid,
                *self == *old(self),
                old(self).wf(),
                self@.contains_key(cntlid),
                entry@ == self@[cntlid],
                entry.hostnqn@ == hostnqn@,
        {
            if entry.installed_qids[i] == qid {
                assert(entry@.qids[i as int] == qid);
                return Err(IoConnectError::QueueExists);
            }
        }
        let ghost was = entry@;
        entry.installed_qids.push(qid);
        let out = entry.clone();
        assert(out@ == (Controller { qids: was.qids.push(qid), ..was }));
        self.controllers.insert(cntlid, entry);
        proof {
            assert(self@ =~= old(self)@.insert(cntlid, out@));
            let k = choose|k: int| 0 <= k < was.qids.len() && was.qids[k] == 0;
            assert(out@.qids[k] == 0);
        }
        Ok(out)
    }

    /// Remove a controller (shutdown, keep-alive expiry, admin disconnect).
    pub fn remove(&mut self, cntlid: u16) -> (r: Option<ControllerEntry>)
        requires
            old(self).wf(),
        ensures
            final(self).wf(),
            final(self)@ == old(self)@.remove(cntlid),
            final(self).next() == old(self).next(),
            match r {
                Some(e) => old(self)@.contains_key(cntlid) && e@ == old(self)@[cntlid],
                None => !old(self)@.contains_key(cntlid),
            },
    {
        let r = self.controllers.remove(&cntlid);
        assert(self@ =~= old(self)@.remove(cntlid));
        r
    }

    /// Controllers there are.
    pub fn len(&self) -> (r: usize)
        ensures
            r == self@.len(),
    {
        assert(self@.dom() =~= self.controllers@.dom());
        self.controllers.len()
    }

    /// No controllers at all.
    pub fn is_empty(&self) -> (r: bool)
        ensures
            r == (self@.len() == 0),
    {
        self.len() == 0
    }
}

/// A search tries only valid ids.
pub proof fn lemma_scan_id(start: u16, off: int)
    requires
        1 <= start,
        0 <= off < 0xfffe,
    ensures
        1 <= scan_id(start, off) <= MAX_CNTLID,
        off + start <= MAX_CNTLID ==> scan_id(start, off) == start + off,
{
}

/// Whether CC enables the controller: bit 0.
pub open spec fn enables(cc: u32) -> bool {
    cc % 2 == 1
}

/// Whether CC notifies of a shutdown: bits 14 and 15 are not both zero.
pub open spec fn notifies_shutdown(cc: u32) -> bool {
    cc / 0x4000 % 4 != 0
}

/// A shutdown that is notified comes first; else the controller is enabled or
/// disabled where bit 0 of CC goes up or down, and nothing happens where it
/// stays. Of CSTS just one bit moves: 0, ready, with enabling and disabling, and
/// 3, shutdown complete, with a shutdown.
pub proof fn lemma_registers(was: u32, value: u32, csts: u32)
    ensures
        ({
            let e = cc_effect(was, value);
            &&& e == CcEffect::Shutdown <==> notifies_shutdown(value)
            &&& e == CcEffect::Enabled <==> !notifies_shutdown(value) && !enables(was) && enables(
                value,
            )
            &&& e == CcEffect::Disabled <==> !notifies_shutdown(value) && enables(was) && !enables(
                value,
            )
            &&& e == CcEffect::Unchanged <==> !notifies_shutdown(value) && enables(was) == enables(
                value,
            )
        }),
        csts_after(csts, CcEffect::Unchanged) == csts,
        csts_after(csts, CcEffect::Enabled) == csts - csts % 2 + 1,
        csts_after(csts, CcEffect::Disabled) == csts - csts % 2,
        csts_after(csts, CcEffect::Shutdown) == (if csts / 8 % 2 == 1 {
            csts as int
        } else {
            csts + 8
        }),
        csts | csts::CFS == (if csts / 2 % 2 == 1 {
            csts as int
        } else {
            csts + 2
        }),
{
    assert((value & 0xc000u32 != 0) == (value / 0x4000 % 4 != 0) && (value & 1u32 != 0) == (value
        % 2 == 1) && (was & 1u32 != 0) == (was % 2 == 1)) by (bit_vector);
    assert(csts | 1u32 == csts - csts % 2 + 1 && csts & !1u32 == csts - csts % 2 && csts | 8u32
        == csts + (if csts / 8 % 2 == 1 {
        0u32
    } else {
        8u32
    }) && csts | 2u32 == csts + (if csts / 2 % 2 == 1 {
        0u32
    } else {
        2u32
    })) by (bit_vector);
}

/// A search comes by every id from where it starts on, and by every id well
/// before that, so that it fails only where next to all ids are taken.
pub proof fn lemma_scan_reaches(start: u16, id: u16)
    requires
        1 <= start,
        1 <= id <= 0xfffe,
        id >= start || id + 2 < start,
    ensures
        exists|off: int| 0 <= off < 0xfffe && #[trigger] scan_id(start, off) == id,
{
    if id >= start {
        assert(scan_id(start, id - start) == id);
    } else {
        assert(scan_id(start, 0x1_0000 + id - start) == id);
    }
}

} // verus!
