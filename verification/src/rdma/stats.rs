//! Per-queue RDMA work-request statistics: the WR-class counters (READ, WRITE,
//! SEND, RECV) and batch-size histograms a queue bumps on its hot path.

use vstd::prelude::*;

verus! {

/// Work-request counters of one class. `posted`/`done` are cumulative (reset
/// by a clear); `inflight` is a live gauge (posted−done), never reset, so it
/// stays accurate across a clear.
#[derive(Debug, Clone, Copy, PartialEq, Eq, Structural)]
pub struct WrClass {
    /// Posted.
    pub posted: u64,
    /// Completed.
    pub done: u64,
    /// Posted and not completed.
    pub inflight: i64,
}

impl Default for WrClass {
    /// Nothing counted.
    fn default() -> (r: Self)
        ensures
            r == (WrClass { posted: 0, done: 0, inflight: 0 }),
    {
        WrClass { posted: 0, done: 0, inflight: 0 }
    }
}

impl WrClass {
    /// Count `n` posted WRs: bump the cumulative `posted` and the live gauge.
    pub fn post_n(&mut self, n: u64)
        requires
            old(self).posted + n <= u64::MAX,
            old(self).inflight + n <= i64::MAX,
            n <= i64::MAX,
        ensures
            *final(self) == (WrClass {
                posted: (old(self).posted + n) as u64,
                inflight: (old(self).inflight + n) as i64,
                ..*old(self)
            }),
    {
        self.posted = self.posted + n;
        self.inflight = self.inflight + n as i64;
    }

    /// Count a posted WR.
    pub fn post(&mut self)
        requires
            old(self).posted < u64::MAX,
            old(self).inflight < i64::MAX,
        ensures
            *final(self) == (WrClass {
                posted: (old(self).posted + 1) as u64,
                inflight: (old(self).inflight + 1) as i64,
                ..*old(self)
            }),
    {
        self.post_n(1);
    }

    /// Count a completed WR: bump cumulative `done`, drop the live gauge.
    pub fn complete(&mut self)
        requires
            old(self).done < u64::MAX,
            old(self).inflight > i64::MIN,
        ensures
            *final(self) == (WrClass {
                done: (old(self).done + 1) as u64,
                inflight: (old(self).inflight - 1) as i64,
                ..*old(self)
            }),
    {
        self.done = self.done + 1;
        self.inflight = self.inflight - 1;
    }

    /// Forget what was counted; what is in flight still is.
    pub fn reset(&mut self)
        ensures
            *final(self) == (WrClass { posted: 0, done: 0, ..*old(self) }),
    {
        self.posted = 0;
        self.done = 0;
    }
}

/// Batch-size histogram — buckets for 1, 2, 3-4, 5-8, 9-16 and 17+ items.
#[derive(Debug, Clone, Copy, PartialEq, Eq)]
pub struct BatchHist(pub [u64; 6]);

impl Default for BatchHist {
    /// Nothing counted.
    fn default() -> (r: Self)
        ensures
            r.0@ == seq![0u64, 0, 0, 0, 0, 0],
    {
        let r = BatchHist([0u64; 6]);
        assert(r.0@ =~= seq![0u64, 0, 0, 0, 0, 0]);
        r
    }
}

/// The bucket of a batch of `n`; none for an empty one.
pub open spec fn bucket(n: usize) -> Option<int> {
    if n == 0 {
        None
    } else if n == 1 {
        Some(0)
    } else if n == 2 {
        Some(1)
    } else if n <= 4 {
        Some(2)
    } else if n <= 8 {
        Some(3)
    } else if n <= 16 {
        Some(4)
    } else {
        Some(5)
    }
}

impl BatchHist {
    /// Count a batch of `n`.
    pub fn record(&mut self, n: usize)
        requires
            bucket(n) matches Some(b) ==> old(self).0@[b] < u64::MAX,
        ensures
            final(self).0@ == (match bucket(n) {
                Some(b) => old(self).0@.update(b, (old(self).0@[b] + 1) as u64),
                None => old(self).0@,
            }),
    {
        let at: usize = if n == 0 {
            return ;
        } else if n == 1 {
            0
        } else if n == 2 {
            1
        } else if n <= 4 {
            2
        } else if n <= 8 {
            3
        } else if n <= 16 {
            4
        } else {
            5
        };
        let ghost before = self.0@;
        let count: u64 = self.0[at];
        self.0[at] = count + 1;
        assert(self.0@ =~= before.update(at as int, (count + 1) as u64));
    }
}

/// A queue's work-request statistics.
#[derive(Debug, Clone, Copy, PartialEq, Eq)]
pub struct RdmaWrStats {
    /// Host write-data pulls (RDMA READ).
    pub read: WrClass,
    /// Read-data pushes (RDMA WRITE).
    pub write: WrClass,
    /// CQE capsules (SEND).
    pub send: WrClass,
    /// Command capsules (RECV).
    pub recv: WrClass,
    /// Non-empty CQ polls (completion batches).
    pub poll_batches: u64,
    /// Send-queue doorbells rung.
    pub sq_doorbells: u64,
    /// WRs chained per read-batch doorbell.
    pub read_db: BatchHist,
    /// WRs chained per response-batch doorbell.
    pub resp_db: BatchHist,
    /// RECV WRs per repost doorbell.
    pub recv_db: BatchHist,
    /// CQEs reaped per non-empty CQ poll.
    pub poll: BatchHist,
}

impl Default for RdmaWrStats {
    /// Nothing counted.
    fn default() -> (r: Self)
        ensures
            r.read == (WrClass { posted: 0, done: 0, inflight: 0 }),
            r.write == r.read,
            r.send == r.read,
            r.recv == r.read,
            r.poll_batches == 0,
            r.sq_doorbells == 0,
            r.read_db.0@ == seq![0u64, 0, 0, 0, 0, 0],
            r.resp_db.0@ == seq![0u64, 0, 0, 0, 0, 0],
            r.recv_db.0@ == seq![0u64, 0, 0, 0, 0, 0],
            r.poll.0@ == seq![0u64, 0, 0, 0, 0, 0],
    {
        RdmaWrStats {
            read: WrClass::default(),
            write: WrClass::default(),
            send: WrClass::default(),
            recv: WrClass::default(),
            poll_batches: 0,
            sq_doorbells: 0,
            read_db: BatchHist::default(),
            resp_db: BatchHist::default(),
            recv_db: BatchHist::default(),
            poll: BatchHist::default(),
        }
    }
}

/// A send-queue class.
#[derive(Debug, Clone, Copy, PartialEq, Eq, Structural)]
pub enum SqClass {
    /// READ.
    Read,
    /// WRITE.
    Write,
    /// SEND.
    Send,
}

/// One more posted and in flight.
pub open spec fn posted(c: WrClass) -> WrClass {
    WrClass { posted: (c.posted + 1) as u64, inflight: (c.inflight + 1) as i64, ..c }
}

/// The counters of a class of `s`.
pub open spec fn class_of(s: RdmaWrStats, c: SqClass) -> WrClass {
    match c {
        SqClass::Read => s.read,
        SqClass::Write => s.write,
        SqClass::Send => s.send,
    }
}

/// A class of which nothing is counted but what is in flight.
pub open spec fn cleared_class(c: WrClass) -> WrClass {
    WrClass { posted: 0, done: 0, ..c }
}

/// Whether `b` is `a` with nothing counted but what is in flight.
pub open spec fn cleared(a: RdmaWrStats, b: RdmaWrStats) -> bool {
    &&& b.read == cleared_class(a.read)
    &&& b.write == cleared_class(a.write)
    &&& b.send == cleared_class(a.send)
    &&& b.recv == cleared_class(a.recv)
    &&& b.poll_batches == 0
    &&& b.sq_doorbells == 0
    &&& b.read_db.0@ == seq![0u64, 0, 0, 0, 0, 0]
    &&& b.resp_db.0@ == seq![0u64, 0, 0, 0, 0, 0]
    &&& b.recv_db.0@ == seq![0u64, 0, 0, 0, 0, 0]
    &&& b.poll.0@ == seq![0u64, 0, 0, 0, 0, 0]
}

/// What is reported of a class.
pub open spec fn class_rows(
    posted: Seq<char>,
    done: Seq<char>,
    inflight: Seq<char>,
    c: WrClass,
) -> Seq<(Seq<char>, u64)> {
    seq![
        (posted, c.posted),
        (done, c.done),
        (
            inflight,
            if c.inflight < 0 {
                0
            } else {
                c.inflight as u64
            },
        ),
    ]
}

/// What is reported of a histogram.
pub open spec fn hist_rows(keys: Seq<Seq<char>>, h: Seq<u64>) -> Seq<(Seq<char>, u64)> {
    Seq::new(6, |i: int| (keys[i], h[i]))
}

/// Everything that is reported, under its key, in an order the tooling that
/// reads it relies on.
pub open spec fn rows(s: RdmaWrStats) -> Seq<(Seq<char>, u64)> {
    class_rows("read_posted"@, "read_done"@, "read_inflight"@, s.read) + class_rows(
        "write_posted"@,
        "write_done"@,
        "write_inflight"@,
        s.write,
    ) + class_rows("send_posted"@, "send_done"@, "send_inflight"@, s.send) + class_rows(
        "recv_posted"@,
        "recv_done"@,
        "recv_inflight"@,
        s.recv,
    ) + seq![("poll_batches"@, s.poll_batches), ("sq_doorbells"@, s.sq_doorbells)] + hist_rows(
        seq![
            "read_db_b1"@,
            "read_db_b2"@,
            "read_db_b4"@,
            "read_db_b8"@,
            "read_db_b16"@,
            "read_db_b32"@,
        ],
        s.read_db.0@,
    ) + hist_rows(
        seq![
            "resp_db_b1"@,
            "resp_db_b2"@,
            "resp_db_b4"@,
            "resp_db_b8"@,
            "resp_db_b16"@,
            "resp_db_b32"@,
        ],
        s.resp_db.0@,
    ) + hist_rows(
        seq![
            "recv_db_b1"@,
            "recv_db_b2"@,
            "recv_db_b4"@,
            "recv_db_b8"@,
            "recv_db_b16"@,
            "recv_db_b32"@,
        ],
        s.recv_db.0@,
    ) + hist_rows(
        seq!["poll_b1"@, "poll_b2"@, "poll_b4"@, "poll_b8"@, "poll_b16"@, "poll_b32"@],
        s.poll.0@,
    )
}

/// Rows, by their texts.
pub open spec fn reported(v: Seq<(&'static str, u64)>) -> Seq<(Seq<char>, u64)> {
    Seq::new(v.len(), |i: int| (v[i].0@, v[i].1))
}

fn report(out: &mut Vec<(&'static str, u64)>, key: &'static str, n: u64)
    ensures
        reported(final(out)@) == reported(old(out)@).push((key@, n)),
{
    let ghost before = reported(out@);
    out.push((key, n));
    assert(reported(out@) =~= before.push((key@, n)));
}

fn report_class(
    out: &mut Vec<(&'static str, u64)>,
    posted: &'static str,
    done: &'static str,
    inflight: &'static str,
    c: &WrClass,
)
    ensures
        reported(final(out)@) == reported(old(out)@) + class_rows(posted@, done@, inflight@, *c),
{
    let ghost before = reported(out@);
    report(out, posted, c.posted);
    report(out, done, c.done);
    report(
        out,
        inflight,
        if c.inflight < 0 {
            0
        } else {
            c.inflight as u64
        },
    );
    assert(reported(out@) =~= before + class_rows(posted@, done@, inflight@, *c));
}

fn report_hist(out: &mut Vec<(&'static str, u64)>, keys: [&'static str; 6], h: &BatchHist)
    ensures
        reported(final(out)@) == reported(old(out)@) + hist_rows(
            Seq::new(6, |i: int| keys@[i]@),
            h.0@,
        ),
{
    let ghost before = reported(out@);
    let ghost names = Seq::new(6, |i: int| keys@[i]@);
    for i in 0..6usize
        invariant
            names == Seq::new(6, |k: int| keys@[k]@),
            reported(out@) == before + hist_rows(names, h.0@).take(i as int),
    {
        report(out, keys[i], h.0[i]);
        assert(reported(out@) =~= before + hist_rows(names, h.0@).take(i + 1));
    }
    assert(hist_rows(names, h.0@).take(6) =~= hist_rows(names, h.0@));
}

impl RdmaWrStats {
    /// Count a send-queue doorbell, whatever it batched.
    pub fn doorbell(&mut self)
        requires
            old(self).sq_doorbells < u64::MAX,
        ensures
            *final(self) == (RdmaWrStats {
                sq_doorbells: (old(self).sq_doorbells + 1) as u64,
                ..*old(self)
            }),
    {
        self.sq_doorbells = self.sq_doorbells + 1;
    }

    /// Count a single-WR send-queue post plus the doorbell it rings.
    pub fn sq_post(&mut self, class: SqClass)
        requires
            old(self).sq_doorbells < u64::MAX,
            class_of(*old(self), class).posted < u64::MAX,
            class_of(*old(self), class).inflight < i64::MAX,
        ensures
            ({
                let s = RdmaWrStats {
                    sq_doorbells: (old(self).sq_doorbells + 1) as u64,
                    ..*old(self)
                };
                *final(self) == (match class {
                    SqClass::Read => RdmaWrStats { read: posted(s.read), ..s },
                    SqClass::Write => RdmaWrStats { write: posted(s.write), ..s },
                    SqClass::Send => RdmaWrStats { send: posted(s.send), ..s },
                })
            }),
    {
        match class {
            SqClass::Read => self.read.post(),
            SqClass::Write => self.write.post(),
            SqClass::Send => self.send.post(),
        }
        self.doorbell();
    }

    /// Everything that is counted, under its key.
    pub fn snapshot(&self) -> (r: Vec<(&'static str, u64)>)
        ensures
            reported(r@) == rows(*self),
    {
        let mut out: Vec<(&'static str, u64)> = Vec::new();
        assert(reported(out@) =~= seq![]);
        report_class(&mut out, "read_posted", "read_done", "read_inflight", &self.read);
        report_class(&mut out, "write_posted", "write_done", "write_inflight", &self.write);
        report_class(&mut out, "send_posted", "send_done", "send_inflight", &self.send);
        report_class(&mut out, "recv_posted", "recv_done", "recv_inflight", &self.recv);
        report(&mut out, "poll_batches", self.poll_batches);
        report(&mut out, "sq_doorbells", self.sq_doorbells);
        let read_keys = [
            "read_db_b1",
            "read_db_b2",
            "read_db_b4",
            "read_db_b8",
            "read_db_b16",
            "read_db_b32",
        ];
        let resp_keys = [
            "resp_db_b1",
            "resp_db_b2",
            "resp_db_b4",
            "resp_db_b8",
            "resp_db_b16",
            "resp_db_b32",
        ];
        let recv_keys = [
            "recv_db_b1",
            "recv_db_b2",
            "recv_db_b4",
            "recv_db_b8",
            "recv_db_b16",
            "recv_db_b32",
        ];
        let poll_keys = ["poll_b1", "poll_b2", "poll_b4", "poll_b8", "poll_b16", "poll_b32"];
        let ghost head = reported(out@);
        report_hist(&mut out, read_keys, &self.read_db);
        report_hist(&mut out, resp_keys, &self.resp_db);
        report_hist(&mut out, recv_keys, &self.recv_db);
        report_hist(&mut out, poll_keys, &self.poll);
        proof {
            assert(Seq::new(6, |i: int| read_keys@[i]@) =~= seq![
                "read_db_b1"@,
                "read_db_b2"@,
                "read_db_b4"@,
                "read_db_b8"@,
                "read_db_b16"@,
                "read_db_b32"@,
            ]);
            assert(Seq::new(6, |i: int| resp_keys@[i]@) =~= seq![
                "resp_db_b1"@,
                "resp_db_b2"@,
                "resp_db_b4"@,
                "resp_db_b8"@,
                "resp_db_b16"@,
                "resp_db_b32"@,
            ]);
            assert(Seq::new(6, |i: int| recv_keys@[i]@) =~= seq![
                "recv_db_b1"@,
                "recv_db_b2"@,
                "recv_db_b4"@,
                "recv_db_b8"@,
                "recv_db_b16"@,
                "recv_db_b32"@,
            ]);
            assert(Seq::new(6, |i: int| poll_keys@[i]@) =~= seq![
                "poll_b1"@,
                "poll_b2"@,
                "poll_b4"@,
                "poll_b8"@,
                "poll_b16"@,
                "poll_b32"@,
            ]);
            let s = *self;
            assert(head =~= class_rows("read_posted"@, "read_done"@, "read_inflight"@, s.read)
                + class_rows("write_posted"@, "write_done"@, "write_inflight"@, s.write)
                + class_rows("send_posted"@, "send_done"@, "send_inflight"@, s.send)
                + class_rows("recv_posted"@, "recv_done"@, "recv_inflight"@, s.recv) + seq![
                ("poll_batches"@, s.poll_batches),
                ("sq_doorbells"@, s.sq_doorbells),
            ]);
        }
        out
    }

    /// Forget what was counted; what is in flight still is.
    pub fn reset(&mut self)
        ensures
            cleared(*old(self), *final(self)),
    {
        self.read.reset();
        self.write.reset();
        self.send.reset();
        self.recv.reset();
        self.poll_batches = 0;
        self.sq_doorbells = 0;
        self.read_db = BatchHist::default();
        self.resp_db = BatchHist::default();
        self.recv_db = BatchHist::default();
        self.poll = BatchHist::default();
    }
}

/// Every batch that is not empty falls into one of the six buckets, larger
/// batches never into an earlier one.
pub proof fn lemma_buckets(m: usize, n: usize)
    requires
        0 < m <= n,
    ensures
        bucket(m) matches Some(a) && 0 <= a < 6,
        bucket(m)->0 <= bucket(n)->0,
        bucket(0) is None,
{
}

// ---------------------------------------------------------------------------
// What the counters say
// ---------------------------------------------------------------------------

/// The bucket of a batch takes batches up to the size it is reported under, and
/// none that the bucket before it takes; the last one takes all larger ones.
pub proof fn lemma_bucket_sizes(n: usize)
    requires
        n > 0,
    ensures
        bucket(n) matches Some(b) && 0 <= b < 6 && (b < 5 ==> n <= vstd::arithmetic::power2::pow2(
            b as nat,
        )) && (b > 0 ==> n > vstd::arithmetic::power2::pow2((b - 1) as nat)),
{
    vstd::arithmetic::power2::lemma2_to64();
}

/// Posting keeps the gauge at what is posted and not done, and clearing leaves
/// the gauge alone.
pub proof fn lemma_gauge(c: WrClass)
    requires
        c.posted < u64::MAX,
        c.inflight < i64::MAX,
    ensures
        posted(c).posted == c.posted + 1,
        posted(c).done == c.done,
        posted(c).posted - posted(c).done - posted(c).inflight == c.posted - c.done - c.inflight,
        cleared_class(c).posted == 0,
        cleared_class(c).done == 0,
        cleared_class(c).inflight == c.inflight,
{
}

/// What is in flight, as a report has it.
pub open spec fn gauge(c: WrClass) -> u64 {
    if c.inflight >= 0 {
        c.inflight as u64
    } else {
        0
    }
}

/// Every counter is reported under its own key, each class of work request under
/// its name, and the batches under the largest size their bucket takes.
pub proof fn lemma_rows(s: RdmaWrStats)
    ensures
        rows(s).len() == 38,
        rows(s).contains(("read_posted"@, s.read.posted)),
        rows(s).contains(("read_done"@, s.read.done)),
        rows(s).contains(("read_inflight"@, gauge(s.read))),
        rows(s).contains(("write_posted"@, s.write.posted)),
        rows(s).contains(("write_done"@, s.write.done)),
        rows(s).contains(("write_inflight"@, gauge(s.write))),
        rows(s).contains(("send_posted"@, s.send.posted)),
        rows(s).contains(("send_done"@, s.send.done)),
        rows(s).contains(("send_inflight"@, gauge(s.send))),
        rows(s).contains(("recv_posted"@, s.recv.posted)),
        rows(s).contains(("recv_done"@, s.recv.done)),
        rows(s).contains(("recv_inflight"@, gauge(s.recv))),
        rows(s).contains(("poll_batches"@, s.poll_batches)),
        rows(s).contains(("sq_doorbells"@, s.sq_doorbells)),
        rows(s).contains(("read_db_b1"@, s.read_db.0@[0])),
        rows(s).contains(("read_db_b2"@, s.read_db.0@[1])),
        rows(s).contains(("read_db_b4"@, s.read_db.0@[2])),
        rows(s).contains(("read_db_b8"@, s.read_db.0@[3])),
        rows(s).contains(("read_db_b16"@, s.read_db.0@[4])),
        rows(s).contains(("read_db_b32"@, s.read_db.0@[5])),
        rows(s).contains(("resp_db_b1"@, s.resp_db.0@[0])),
        rows(s).contains(("resp_db_b2"@, s.resp_db.0@[1])),
        rows(s).contains(("resp_db_b4"@, s.resp_db.0@[2])),
        rows(s).contains(("resp_db_b8"@, s.resp_db.0@[3])),
        rows(s).contains(("resp_db_b16"@, s.resp_db.0@[4])),
        rows(s).contains(("resp_db_b32"@, s.resp_db.0@[5])),
        rows(s).contains(("recv_db_b1"@, s.recv_db.0@[0])),
        rows(s).contains(("recv_db_b2"@, s.recv_db.0@[1])),
        rows(s).contains(("recv_db_b4"@, s.recv_db.0@[2])),
        rows(s).contains(("recv_db_b8"@, s.recv_db.0@[3])),
        rows(s).contains(("recv_db_b16"@, s.recv_db.0@[4])),
        rows(s).contains(("recv_db_b32"@, s.recv_db.0@[5])),
        rows(s).contains(("poll_b1"@, s.poll.0@[0])),
        rows(s).contains(("poll_b2"@, s.poll.0@[1])),
        rows(s).contains(("poll_b4"@, s.poll.0@[2])),
        rows(s).contains(("poll_b8"@, s.poll.0@[3])),
        rows(s).contains(("poll_b16"@, s.poll.0@[4])),
        rows(s).contains(("poll_b32"@, s.poll.0@[5])),
{
    let r = rows(s);
    assert(r[0] == ("read_posted"@, s.read.posted));
    assert(r[1] == ("read_done"@, s.read.done));
    assert(r[2] == ("read_inflight"@, gauge(s.read)));
    assert(r[3] == ("write_posted"@, s.write.posted));
    assert(r[4] == ("write_done"@, s.write.done));
    assert(r[5] == ("write_inflight"@, gauge(s.write)));
    assert(r[6] == ("send_posted"@, s.send.posted));
    assert(r[7] == ("send_done"@, s.send.done));
    assert(r[8] == ("send_inflight"@, gauge(s.send)));
    assert(r[9] == ("recv_posted"@, s.recv.posted));
    assert(r[10] == ("recv_done"@, s.recv.done));
    assert(r[11] == ("recv_inflight"@, gauge(s.recv)));
    assert(r[12] == ("poll_batches"@, s.poll_batches));
    assert(r[13] == ("sq_doorbells"@, s.sq_doorbells));
    assert(r[14] == ("read_db_b1"@, s.read_db.0@[0]));
    assert(r[15] == ("read_db_b2"@, s.read_db.0@[1]));
    assert(r[16] == ("read_db_b4"@, s.read_db.0@[2]));
    assert(r[17] == ("read_db_b8"@, s.read_db.0@[3]));
    assert(r[18] == ("read_db_b16"@, s.read_db.0@[4]));
    assert(r[19] == ("read_db_b32"@, s.read_db.0@[5]));
    assert(r[20] == ("resp_db_b1"@, s.resp_db.0@[0]));
    assert(r[21] == ("resp_db_b2"@, s.resp_db.0@[1]));
    assert(r[22] == ("resp_db_b4"@, s.resp_db.0@[2]));
    assert(r[23] == ("resp_db_b8"@, s.resp_db.0@[3]));
    assert(r[24] == ("resp_db_b16"@, s.resp_db.0@[4]));
    assert(r[25] == ("resp_db_b32"@, s.resp_db.0@[5]));
    assert(r[26] == ("recv_db_b1"@, s.recv_db.0@[0]));
    assert(r[27] == ("recv_db_b2"@, s.recv_db.0@[1]));
    assert(r[28] == ("recv_db_b4"@, s.recv_db.0@[2]));
    assert(r[29] == ("recv_db_b8"@, s.recv_db.0@[3]));
    assert(r[30] == ("recv_db_b16"@, s.recv_db.0@[4]));
    assert(r[31] == ("recv_db_b32"@, s.recv_db.0@[5]));
    assert(r[32] == ("poll_b1"@, s.poll.0@[0]));
    assert(r[33] == ("poll_b2"@, s.poll.0@[1]));
    assert(r[34] == ("poll_b4"@, s.poll.0@[2]));
    assert(r[35] == ("poll_b8"@, s.poll.0@[3]));
    assert(r[36] == ("poll_b16"@, s.poll.0@[4]));
    assert(r[37] == ("poll_b32"@, s.poll.0@[5]));
}

/// Clearing takes every count back to nothing, and leaves what is in flight as it
/// is.
pub proof fn lemma_cleared(a: RdmaWrStats, b: RdmaWrStats, i: int)
    requires
        cleared(a, b),
    ensures
        b.read.posted == 0 && b.read.done == 0 && b.read.inflight == a.read.inflight,
        b.write.posted == 0 && b.write.done == 0 && b.write.inflight == a.write.inflight,
        b.send.posted == 0 && b.send.done == 0 && b.send.inflight == a.send.inflight,
        b.recv.posted == 0 && b.recv.done == 0 && b.recv.inflight == a.recv.inflight,
        b.poll_batches == 0,
        b.sq_doorbells == 0,
        0 <= i < 6 ==> b.read_db.0@[i] == 0 && b.resp_db.0@[i] == 0 && b.recv_db.0@[i] == 0
            && b.poll.0@[i] == 0,
{
}

} // verus!
