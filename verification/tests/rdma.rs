//! RDMA work requests, their counters and the connection listener.

use ioutgt::pool::SlotData;
use ioutgt::rdma::listener::{bind_again, Action, CmReq, Event, RdmaListener, RdmaRaw, Refusal};
use ioutgt::rdma::stats::{BatchHist, RdmaWrStats, SqClass};
use ioutgt::rdma::wr::{fill_sges, post_sge_runs, Sge, SgeOp, WrId, WrKind};

#[test]
fn stats_snapshot_key_order_is_stable() {
    let keys: Vec<&str> = RdmaWrStats::default()
        .snapshot()
        .into_iter()
        .map(|(k, _)| k)
        .collect();
    assert_eq!(
        keys,
        [
            "read_posted",
            "read_done",
            "read_inflight",
            "write_posted",
            "write_done",
            "write_inflight",
            "send_posted",
            "send_done",
            "send_inflight",
            "recv_posted",
            "recv_done",
            "recv_inflight",
            "poll_batches",
            "sq_doorbells",
            "read_db_b1",
            "read_db_b2",
            "read_db_b4",
            "read_db_b8",
            "read_db_b16",
            "read_db_b32",
            "resp_db_b1",
            "resp_db_b2",
            "resp_db_b4",
            "resp_db_b8",
            "resp_db_b16",
            "resp_db_b32",
            "recv_db_b1",
            "recv_db_b2",
            "recv_db_b4",
            "recv_db_b8",
            "recv_db_b16",
            "recv_db_b32",
            "poll_b1",
            "poll_b2",
            "poll_b4",
            "poll_b8",
            "poll_b16",
            "poll_b32",
        ]
    );
}

#[test]
fn counters_move_with_what_is_posted_and_completed() {
    let mut s = RdmaWrStats::default();
    s.doorbell();
    s.sq_post(SqClass::Send);
    s.sq_post(SqClass::Send);
    s.send.complete();
    s.recv.post_n(4);
    let rows = s.snapshot();
    let value = |key: &str| rows.iter().find(|(k, _)| *k == key).unwrap().1;
    // A single post rings its own doorbell.
    assert_eq!(value("sq_doorbells"), 3);
    assert_eq!(
        (value("send_posted"), value("send_done"), value("send_inflight")),
        (2, 1, 1)
    );
    assert_eq!((value("recv_posted"), value("recv_inflight")), (4, 4));

    // Clearing keeps what is still in flight.
    s.reset();
    assert_eq!((s.send.posted, s.send.done, s.send.inflight), (0, 0, 1));
    assert_eq!(s.sq_doorbells, 0);
}

#[test]
fn batches_fall_into_the_bucket_of_their_size() {
    let mut h = BatchHist::default();
    for n in [0, 1, 2, 3, 4, 5, 8, 9, 16, 17, 1000] {
        h.record(n);
    }
    assert_eq!(h.0, [1, 1, 2, 2, 2, 2]);
}

#[test]
fn wr_id_round_trips_with_legacy_layout() {
    for kind in [WrKind::Recv, WrKind::Send, WrKind::Write, WrKind::Read] {
        for low in [0u32, 1, 7, 0xffff_ffff] {
            let decoded = WrId::decode(WrId::new(kind, low).encode()).expect("known kind");
            assert_eq!(decoded, WrId { kind, low });
        }
    }
    // The exact values.
    assert_eq!(WrId::new(WrKind::Recv, 7).encode(), (1 << 40) | 7);
    assert_eq!(WrId::new(WrKind::Send, 7).encode(), (2 << 40) | 7);
    assert_eq!(WrId::new(WrKind::Write, 7).encode(), (3 << 40) | 7);
    assert_eq!(WrId::new(WrKind::Read, 7).encode(), (4 << 40) | 7);
    // An unknown class byte decodes to None (the defensive guard).
    assert_eq!(WrId::decode(9 << 40), None);
}

#[test]
fn each_run_is_its_own_request_and_only_the_last_reports() {
    let data = SlotData::owned(8192);
    assert_eq!(
        fill_sges(&data, 5000, 42),
        vec![Sge {
            addr: data.segs()[0].off as u64,
            length: 5000,
            lkey: 42
        }]
    );

    let sges = vec![
        Sge {
            addr: 0,
            length: 4096,
            lkey: 1,
        },
        Sge {
            addr: 8192,
            length: 512,
            lkey: 1,
        },
    ];
    let posted = post_sge_runs(99, SgeOp::Write, 7, 0x10_0000, &sges);
    assert_eq!(posted.len(), 2);
    assert_eq!((posted[0].remote, posted[0].signaled), (0x10_0000, false));
    assert_eq!((posted[1].remote, posted[1].signaled), (0x10_1000, true));
    assert!(posted.iter().all(|w| w.wr_id == 99 && w.rkey == 7));
}

#[test]
fn connections_are_accepted_refused_and_stopped() {
    let mut listener = RdmaListener::new();
    let good = CmReq {
        recfmt: 0,
        qid: 3,
        hsqsize: 127,
    };
    assert_eq!(
        listener.accept(Event::ConnectRequest {
            id: Some(9),
            req: Some(good)
        }),
        Action::Accept(RdmaRaw {
            id: 9,
            qid: 3,
            hsqsize: 127
        })
    );
    assert_eq!(listener.conns, vec![9]);

    assert_eq!(
        listener.accept(Event::ConnectRequest {
            id: Some(10),
            req: None
        }),
        Action::Reject {
            id: Some(10),
            why: Refusal::InvalidLen
        }
    );
    assert_eq!(
        listener.accept(Event::ConnectRequest {
            id: None,
            req: Some(CmReq { recfmt: 1, ..good })
        }),
        Action::Reject {
            id: None,
            why: Refusal::InvalidRecfmt
        }
    );
    assert_eq!(listener.accept(Event::Established), Action::Nothing);
    assert_eq!(
        listener.accept(Event::Disconnected { conn: 9 }),
        Action::Stop { conn: 9 }
    );
    assert!(listener.conns.is_empty());
    assert_eq!(listener.accept(Event::Other), Action::Nothing);
}

#[test]
fn a_bind_is_tried_again_for_a_while() {
    assert_eq!(bind_again(0), Some(false));
    assert_eq!(bind_again(7), Some(true));
    assert_eq!(bind_again(119), Some(true));
    assert_eq!(bind_again(120), None);
}
