//! The NVMe/RDMA listener: what it does with each connection-manager event.
//!
//! The event channel multiplexes all connection ids, so between connect
//! requests it also sees the lifecycle events of already-accepted connections.
//! Every event is acknowledged, whatever else it calls for.

use vstd::prelude::*;

verus! {

/// Record format of the private data a connect request carries.
pub const CM_FMT_1_0: u16 = 0;

/// How often a bind that is not ready yet is tried again.
pub const BIND_ATTEMPTS: u32 = 120;

/// How many bind attempts go by between reports.
pub const BIND_REPORT: u32 = 8;

/// The routing fields of a connect request.
#[derive(Debug, Clone, Copy, PartialEq, Eq, Structural)]
pub struct CmReq {
    /// Record format.
    pub recfmt: u16,
    /// NVMe-oF queue id (0 = admin).
    pub qid: u16,
    /// Host SQ size, 0-based.
    pub hsqsize: u16,
}

/// Why a connect request is rejected.
#[derive(Debug, Clone, Copy, PartialEq, Eq, Structural)]
pub enum Refusal {
    /// The private data is too short to be a request.
    InvalidLen,
    /// The record format is unknown.
    InvalidRecfmt,
}

/// A connection-manager event. Ids are those of the connections.
#[derive(Debug, Clone, Copy, PartialEq, Eq)]
pub enum Event {
    /// A host asks for a connection.
    ConnectRequest {
        /// The new connection's id, if there is one to adopt.
        id: Option<u64>,
        /// Its private data, if it could be read.
        req: Option<CmReq>,
    },
    /// A connection is up.
    Established,
    /// A host has torn a connection down.
    Disconnected {
        /// The connection.
        conn: u64,
    },
    /// Anything else.
    Other,
}

/// What an event calls for, beside its acknowledgement.
#[derive(Debug, Clone, Copy, PartialEq, Eq)]
pub enum Action {
    /// Hand the connection on.
    Accept(RdmaRaw),
    /// Reject the request, over its id if there is one.
    Reject {
        /// The id.
        id: Option<u64>,
        /// Why.
        why: Refusal,
    },
    /// Answer the disconnect and stop the connection's queue.
    Stop {
        /// The connection.
        conn: u64,
    },
    /// Nothing.
    Nothing,
}

/// A freshly accepted connection request: its id plus the host's routing
/// fields.
#[derive(Debug, Clone, Copy, PartialEq, Eq, Structural)]
pub struct RdmaRaw {
    /// The accepted connection's id.
    pub id: u64,
    /// NVMe-oF queue id (0 = admin).
    pub qid: u16,
    /// Host SQ size, 0-based.
    pub hsqsize: u16,
}

/// The listener: the live accepted connections it tracks. Entries are pruned
/// on a disconnect, bounding this across reconnects.
#[derive(Debug)]
pub struct RdmaListener {
    /// Live accepted connections.
    pub conns: Vec<u64>,
}

/// Why a request is refused, if it is.
pub open spec fn refusal(req: Option<CmReq>) -> Option<Refusal> {
    match req {
        None => Some(Refusal::InvalidLen),
        Some(r) => if r.recfmt != CM_FMT_1_0 {
            Some(Refusal::InvalidRecfmt)
        } else {
            None
        },
    }
}

impl RdmaListener {
    /// A listener nobody is connected to.
    pub fn new() -> (r: RdmaListener)
        ensures
            r.conns@ == Seq::<u64>::empty(),
    {
        RdmaListener { conns: Vec::new() }
    }

    /// What to do with `event`. A malformed connect request is rejected with a
    /// status, so that the host logs the reason instead of a bare reject; one
    /// that is well-formed is accepted, if there is a connection to accept.
    pub fn accept(&mut self, event: Event) -> (r: Action)
        ensures
            match event {
                Event::ConnectRequest { id, req } => match refusal(req) {
                    Some(why) => r == (Action::Reject { id, why }) && final(self).conns@ == old(
                        self,
                    ).conns@,
                    None => match id {
                        Some(i) => {
                            &&& r == Action::Accept(
                                RdmaRaw { id: i, qid: req->0.qid, hsqsize: req->0.hsqsize },
                            )
                            &&& final(self).conns@ == old(self).conns@.push(i)
                        },
                        None => r == Action::Nothing && final(self).conns@ == old(self).conns@,
                    },
                },
                Event::Disconnected { conn } => if old(self).conns@.contains(conn) {
                    &&& r == (Action::Stop { conn })
                    &&& exists|k: int|
                        0 <= k < old(self).conns@.len() && #[trigger] old(self).conns@[k] == conn
                            && (forall|j: int| 0 <= j < k ==> old(self).conns@[j] != conn)
                            && final(self).conns@ == old(self).conns@.update(
                            k,
                            old(self).conns@.last(),
                        ).drop_last()
                } else {
                    r == Action::Nothing && final(self).conns@ == old(self).conns@
                },
                Event::Established => r == Action::Nothing && final(self).conns@ == old(
                    self,
                ).conns@,
                Event::Other => r == Action::Nothing && final(self).conns@ == old(self).conns@,
            },
    {
        match event {
            Event::ConnectRequest { id, req } => match req {
                None => Action::Reject { id, why: Refusal::InvalidLen },
                Some(q) => if q.recfmt != CM_FMT_1_0 {
                    Action::Reject { id, why: Refusal::InvalidRecfmt }
                } else {
                    match id {
                        Some(i) => {
                            self.conns.push(i);
                            Action::Accept(RdmaRaw { id: i, qid: q.qid, hsqsize: q.hsqsize })
                        },
                        None => Action::Nothing,
                    }
                },
            },
            Event::Established => Action::Nothing,
            Event::Disconnected { conn } => {
                let n: usize = self.conns.len();
                let mut k: usize = 0;
                while k < n && self.conns[k] != conn
                    invariant
                        k <= n == self.conns@.len(),
                        self.conns@ == old(self).conns@,
                        forall|j: int| 0 <= j < k ==> self.conns@[j] != conn,
                    decreases n - k,
                {
                    k = k + 1;
                }
                if k < n {
                    assert(old(self).conns@[k as int] == conn);
                    let _gone: u64 = self.conns.swap_remove(k);
                    Action::Stop { conn }
                } else {
                    Action::Nothing
                }
            },
            Event::Other => Action::Nothing,
        }
    }
}

/// Whether a bind that failed on attempt `attempt` (from 0) is tried again —
/// the device's address association is populated asynchronously —, and if so
/// whether that is worth a report.
pub fn bind_again(attempt: u32) -> (r: Option<bool>)
    ensures
        r == (if attempt < BIND_ATTEMPTS {
            Some((attempt + 1) % BIND_REPORT as int == 0)
        } else {
            None
        }),
{
    if attempt < BIND_ATTEMPTS {
        Some((attempt + 1) % BIND_REPORT == 0)
    } else {
        None
    }
}

/// A connection that is accepted and then goes leaves no trace, so reconnects
/// do not pile up.
pub proof fn lemma_reconnects_leave_nothing(conns: Seq<u64>, id: u64)
    requires
        !conns.contains(id),
    ensures
        ({
            let with = conns.push(id);
            forall|k: int|
                0 <= k < with.len() && #[trigger] with[k] == id ==> with.update(
                    k,
                    with.last(),
                ).drop_last() == conns
        }),
{
    let with = conns.push(id);
    assert forall|k: int| 0 <= k < with.len() && #[trigger] with[k] == id implies with.update(
        k,
        with.last(),
    ).drop_last() == conns by {
        if k < conns.len() {
            assert(conns[k] == id);
        }
        assert(with.update(k, with.last()).drop_last() =~= conns);
    }
}

/// A request is turned down where its private data is too short or of another
/// format than the first, and only there.
pub proof fn lemma_refusals(req: Option<CmReq>)
    ensures
        refusal(req) == Some(Refusal::InvalidLen) <==> req is None,
        refusal(req) == Some(Refusal::InvalidRecfmt) <==> (req matches Some(r) && r.recfmt != 0),
        refusal(req) is None <==> (req matches Some(r) && r.recfmt == 0),
{
}

} // verus!
