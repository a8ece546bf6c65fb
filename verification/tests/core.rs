//! Controllers, slot buffers, queues and namespace identities.

use ioutgt::buf::{to_boundary, AlignedBuf, BUF_ALIGN};
use ioutgt::controller::{CcEffect, IoConnectError, RegisterState, Registry};
use ioutgt::dispatch::{execute_admin, execute_io};
use ioutgt::nvme::{cc, csts, dsm_ranges, status, RwCommand, Sqe};
use ioutgt::pool::SlotData;
use ioutgt::queue::{stat_add, NvmeQueue, QueueStats, QueueStatsSnapshot};
use ioutgt::slotq::{SlotArray, SlotState};
use ioutgt::uuid::{format_uuid, namespace_uuid, parse_uuid};

#[test]
fn enable_sequence() {
    let mut regs = RegisterState::new(128);
    assert_eq!(regs.cap & 0xFFFF, 127); // MQES 0-based
    assert!(!regs.ready());
    // Host programs IOSQES/IOCQES, and sets EN.
    let value: u32 = cc::EN | (6 << cc::IOSQES_SHIFT) | (4 << cc::IOCQES_SHIFT);
    assert_eq!(regs.write_cc(value), CcEffect::Enabled);
    assert!(regs.ready());
    assert_eq!(regs.write_cc(value), CcEffect::Unchanged); // idempotent
    // Reset.
    assert_eq!(regs.write_cc(0), CcEffect::Disabled);
    assert!(!regs.ready());
}

#[test]
fn shutdown_reports_complete() {
    let mut regs = RegisterState::new(128);
    regs.write_cc(cc::EN);
    assert_eq!(regs.write_cc(cc::EN | cc::SHN_NORMAL), CcEffect::Shutdown);
    assert!(regs.csts() & csts::SHST_COMPLETE != 0);
}

#[test]
fn a_fatal_error_shows_in_the_status() {
    let mut regs = RegisterState::new(2);
    assert_eq!(regs.csts() & csts::CFS, 0);
    regs.fatal_error();
    assert!(regs.csts() & csts::CFS != 0);
    assert_eq!(regs.cc(), 0);
}

#[test]
fn registry_allocates_unique_cntlids() {
    let mut registry = Registry::new();
    let a: u16 = registry.allocate("nqn.test", "nqn.host").unwrap();
    let b: u16 = registry.allocate("nqn.test", "nqn.host").unwrap();
    assert_ne!(a, b);
    assert!(a >= 1 && b >= 1);

    // IO queue install: unknown controller rejected, dup qid rejected.
    assert_eq!(
        registry
            .install_io_queue(0xBEEF, "nqn.host", 1)
            .unwrap_err(),
        IoConnectError::UnknownController
    );
    registry.install_io_queue(a, "nqn.host", 1).unwrap();
    assert_eq!(
        registry.install_io_queue(a, "nqn.host", 1).unwrap_err(),
        IoConnectError::QueueExists
    );
    assert_eq!(
        registry.install_io_queue(a, "nqn.other", 2).unwrap_err(),
        IoConnectError::HostMismatch
    );
    registry.remove(a).unwrap();
    assert_eq!(registry.len(), 1);
}

#[test]
fn a_removed_cntlid_is_unknown_and_the_rest_stay() {
    let mut registry = Registry::new();
    assert!(registry.is_empty());
    let a: u16 = registry.allocate("nqn.a", "nqn.host").unwrap();
    let b: u16 = registry.allocate("nqn.b", "nqn.host").unwrap();
    let gone = registry.remove(a).unwrap();
    assert_eq!((gone.cntlid, gone.subsys_nqn.as_str()), (a, "nqn.a"));
    assert!(registry.remove(a).is_none());
    assert_eq!(
        registry.install_io_queue(a, "nqn.host", 1).unwrap_err(),
        IoConnectError::UnknownController
    );
    registry.install_io_queue(b, "nqn.host", 1).unwrap();
}

#[test]
fn owned_is_contiguous_and_page_sized() {
    let d = SlotData::owned(8 * 1024);
    assert!(d.is_contiguous());
    assert_eq!(d.segs().len(), 1);
    assert_eq!(d.len(), 8 * 1024);
    assert_eq!(d.segs()[0].len, 8 * 1024);
}

#[test]
fn owned_rounds_up_to_page() {
    let d = SlotData::owned(100);
    assert_eq!(d.len(), 4096);
}

#[test]
fn write_at_then_read_back_via_slice() {
    let mut d = SlotData::owned(4096);
    d.write_at(10, &[1, 2, 3, 4]);
    assert_eq!(&d.as_slice()[10..14], &[1, 2, 3, 4]);
}

#[test]
fn for_each_seg_visits_requested_range_contiguous() {
    let mut d = SlotData::owned(4096);
    for i in 0..256u32 {
        d.write_at(i as usize, &[i as u8]);
    }
    let mut seen = Vec::new();
    for chunk in d.for_each_seg(64, 32) {
        seen.extend_from_slice(chunk);
    }
    let want: Vec<u8> = (64u32..96).map(|i| i as u8).collect();
    assert_eq!(seen, want);
}

#[test]
fn contiguous_view_matches_manual_slice() {
    let mut d = SlotData::owned(4096);
    d.as_mut_slice()[..5].copy_from_slice(b"hello");
    let mut viaseg = Vec::new();
    for c in d.for_each_seg(0, 5) {
        viaseg.extend_from_slice(c);
    }
    assert_eq!(&viaseg, b"hello");
    assert_eq!(&d.as_slice()[..5], b"hello");
}

#[test]
fn aligned_buffers_are_whole_pages_of_zeroes() {
    let mut b = AlignedBuf::zeroed(BUF_ALIGN + 1);
    assert_eq!(b.len(), 2 * BUF_ALIGN);
    assert!(!b.is_empty());
    assert!(b.as_slice().iter().all(|&x| x == 0));
    b.as_mut_slice()[7] = 9;
    assert_eq!(b.as_slice()[7], 9);
}

#[test]
fn buffers_start_at_a_page_boundary() {
    let kept: Vec<AlignedBuf> = (0..64).map(|i| AlignedBuf::zeroed(i * 1000)).collect();
    for mut b in kept {
        assert_eq!(b.as_slice().as_ptr().addr() % BUF_ALIGN, 0);
        assert_eq!(b.as_mut_slice().as_ptr().addr() % BUF_ALIGN, 0);
    }
    for _ in 0..64 {
        let d = SlotData::owned(100);
        assert_eq!(d.as_slice().as_ptr().addr() % BUF_ALIGN, 0);
    }
    assert_eq!((to_boundary(8192), to_boundary(8193), to_boundary(12287)), (0, 4095, 1));
}

#[test]
fn a_buffer_is_cut_at_the_first_boundary() {
    let bytes: Vec<u8> = (0..8191u32).map(|i| (i % 251) as u8).collect();
    for (addr, lead) in [(0usize, 0usize), (1, 4095), (4095, 1), (8192 + 16, 4080)] {
        let b = AlignedBuf::cut(bytes.clone(), addr, BUF_ALIGN);
        assert_eq!(b.as_slice(), &bytes[lead..lead + BUF_ALIGN]);
    }
}

#[test]
fn a_queue_without_entries_reports_no_head() {
    let mut q = NvmeQueue::new(3, 0, 4096, true);
    assert_eq!(q.slots.len(), 0);
    assert!(q.slots.claim_tag().is_none());
    assert_eq!(q.advance_sqhd(), 0);
}

#[test]
fn tag_lifecycle_and_sqhd_wrap() {
    let mut q = NvmeQueue::new(1, 4, 4096, false);
    // sqhd wraps modulo sqsize.
    assert_eq!(q.advance_sqhd(), 1);
    assert_eq!(q.advance_sqhd(), 2);
    assert_eq!(q.advance_sqhd(), 3);
    assert_eq!(q.advance_sqhd(), 0);
    assert_eq!(q.advance_sqhd(), 1);

    // Claim all four tags; the fifth fails.
    let tags: Vec<u16> = (0..4).map(|_| q.slots.claim_tag().unwrap()).collect();
    assert!(q.slots.claim_tag().is_none());
    assert!(!q.slots.idle());

    // Walk one slot through the full lifecycle, including the await_command
    // transition (Ready).
    let tag: u16 = tags[0];
    q.slots.submit(tag, Sqe::zeroed());
    assert_eq!(q.slots.slot(tag).state(), SlotState::Ready);
    if q.slots.await_command(tag).is_none() {
        panic!("ready slot must dispatch immediately");
    }
    assert_eq!(q.slots.executing(), 1);
    q.slots.begin_respond(tag);
    assert_eq!(q.slots.executing(), 0);
    assert_eq!(q.slots.slot(tag).state(), SlotState::Responding);
    q.slots.release_tag(tag);
    assert_eq!(q.slots.slot(tag).state(), SlotState::Free);
    assert_eq!(q.slots.free_tags(), 1);
}

#[test]
fn sqhd_disabled_reports_zero() {
    let mut q = NvmeQueue::new(1, 8, 64, true);
    assert_eq!(q.advance_sqhd(), 0);
    assert_eq!(q.advance_sqhd(), 0);
}

#[test]
fn queue_stats_snapshot_and_absorb() {
    let mut stats = QueueStats::new(3);
    stats.cntlid = 7;
    stat_add(&mut stats.read_cmds, 2);
    stat_add(&mut stats.read_bytes, 8192);
    stat_add(&mut stats.errors, 1);
    let snap = stats.snapshot();
    assert_eq!((snap.qid, snap.cntlid), (3, 7));
    assert_eq!((snap.read_cmds, snap.read_bytes, snap.errors), (2, 8192, 1));

    let mut retired = QueueStatsSnapshot::default();
    retired.absorb(&snap);
    retired.absorb(&snap);
    assert_eq!(retired.read_cmds, 4);
    assert_eq!(retired.read_bytes, 16384);
    assert_eq!(retired.errors, 2);
    // Identity does not aggregate: the accumulator is "all retired
    // queues", not any one of them.
    assert_eq!((retired.qid, retired.cntlid), (0, 0));

    // Reset zeros the counters but keeps the identity.
    stats.reset();
    let snap = stats.snapshot();
    assert_eq!((snap.qid, snap.cntlid), (3, 7));
    assert_eq!(
        snap,
        QueueStatsSnapshot {
            qid: 3,
            cntlid: 7,
            ..QueueStatsSnapshot::default()
        }
    );
}

#[test]
fn nvme_queue_owns_zeroed_stats() {
    let queue = NvmeQueue::new(1, 4, 4096, false);
    assert_eq!(
        queue.stats.snapshot(),
        QueueStatsSnapshot {
            qid: 1,
            ..QueueStatsSnapshot::default()
        }
    );
}

#[test]
fn an_unhandled_command_is_turned_away() {
    let mut q = NvmeQueue::new(3, 8, 64, false);
    let sqe = Sqe {
        opcode: 0x7f,
        cid: 42,
        ..Sqe::zeroed()
    };
    let (cqe, len) = execute_io(&mut q, 0, &sqe);
    assert_eq!((cqe.cid, cqe.sqid, cqe.sqhd, len), (42, 3, 1, 0));
    assert_eq!(cqe.status, status::INVALID_OPCODE | status::DNR);
    let (cqe, len) = execute_admin(&mut q, 0, &sqe);
    assert_eq!((cqe.sqhd, cqe.status, len), (2, 0x4001, 0));
}

#[test]
fn command_fields_come_out_of_their_dwords() {
    let sqe = Sqe {
        cdw10: 0x1122_3344,
        cdw11: 0x5566,
        cdw12: 0x4000_0007,
        ..Sqe::zeroed()
    };
    let rw = RwCommand::parse(&sqe);
    assert_eq!((rw.slba, rw.nlb, rw.fua), (0x5566_1122_3344, 7, true));

    let mut payload = [0u8; 32];
    payload[4] = 8; // 8 blocks...
    payload[8] = 0x10; // ...from block 16 on
    payload[20] = 1;
    payload[25] = 1;
    let ranges = dsm_ranges(&payload, 2);
    assert_eq!((ranges[0].slba, ranges[0].nlb), (16, 8));
    assert_eq!((ranges[1].slba, ranges[1].nlb), (256, 1));
}

#[test]
fn parse_uuid_accepts_hyphenated_and_rejects_malformed() {
    let text = "00112233-4455-6677-8899-aabbccddeeff";
    let bytes: [u8; 16] = [
        0x00, 0x11, 0x22, 0x33, 0x44, 0x55, 0x66, 0x77, 0x88, 0x99, 0xaa, 0xbb, 0xcc, 0xdd, 0xee,
        0xff,
    ];
    assert_eq!(parse_uuid(text), Some(bytes));
    assert_eq!(format_uuid(&bytes), text);
    for bad in [
        "",
        "00112233-4455-6677-8899-aabbccddeef",   // short
        "001122334455-6677-8899-aabbccddeeffaa", // hyphen misplaced
        "0011223g-4455-6677-8899-aabbccddeeff",  // non-hex
        "+0112233-4455-6677-8899-aabbccddeeff",  // a sign
    ] {
        assert_eq!(parse_uuid(bad), None, "{bad:?}");
    }
}

#[test]
fn namespace_uuid_is_deterministic() {
    assert_eq!(
        namespace_uuid("nqn.2026-06.io.ioutgt:a", 1),
        namespace_uuid("nqn.2026-06.io.ioutgt:a", 1),
    );
}

#[test]
fn namespace_uuid_differs_by_subsystem_and_nsid() {
    let a1 = namespace_uuid("nqn.2026-06.io.ioutgt:a", 1);
    let b1 = namespace_uuid("nqn.2026-06.io.ioutgt:b", 1);
    let a2 = namespace_uuid("nqn.2026-06.io.ioutgt:a", 2);
    // Same nsid, different subsystem must not collide (the host dedups by
    // this identifier across the whole host — the two-ioutgt-target case).
    assert_ne!(a1, b1);
    // Same subsystem, different nsid also distinct.
    assert_ne!(a1, a2);
    // Never the all-zero UUID (which the host treats as "no identifier").
    assert_ne!(a1, [0u8; 16]);
}

#[test]
fn namespace_uuid_encodes_nsid_in_low_bytes() {
    let u = namespace_uuid("nqn.2026-06.io.ioutgt:a", 0x0102_0304);
    assert_eq!(&u[12..16], &[0x01, 0x02, 0x03, 0x04]);
    assert_eq!(u[8], 0x80);
}

#[test]
fn every_tag_is_free_or_with_one_command() {
    let mut slots = SlotArray::new(3, 4096);
    let mut held = Vec::new();
    while let Some(tag) = slots.claim_tag() {
        assert!(!held.contains(&tag), "handed out twice");
        held.push(tag);
        assert_eq!(slots.free_tags() + held.len(), slots.len());
    }
    // A command comes back out as it went in, and only once.
    let mut sqe = Sqe::zeroed();
    sqe.cid = 77;
    slots.submit(held[1], sqe);
    assert_eq!(slots.slot(held[1]).sqe().cid, 77);
    assert_eq!(slots.await_command(held[1]).map(|c| c.cid), Some(77));
    assert!(slots.await_command(held[1]).is_none());
    slots.begin_respond(held[1]);
    slots.release_tag(held[1]);
    // The tag given back last is the next to go.
    assert_eq!(slots.claim_tag(), Some(held[1]));
}
