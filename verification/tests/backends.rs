//! The in-process backends, and commands executed against them.

use std::sync::Arc;

use ioutgt::any::AnyBackend;
use ioutgt::attached::Attached;
use ioutgt::backend::{Backend, BackendError, LbaRange};
use ioutgt::io::{execute, nvme_status, resume, room_for_one, BackendOp, Step};
use ioutgt::memory::{MemoryBackend, CHUNK_SIZE};
use ioutgt::nstable::{AnaBook, Namespace, NsMap};
use ioutgt::null::NullBackend;
use ioutgt::nvme::{io_opcode, status, Cqe, Sqe};
use ioutgt::queue::NvmeQueue;
use ioutgt::subsystem::{HostAcl, NsCache, Subsystem};

#[test]
fn write_read_roundtrip_across_chunks() {
    let mut be = MemoryBackend::new(8 << 20, 12); // 8 MiB, 4K blocks
    // Span the 2 MiB chunk boundary.
    let slba: u64 = (CHUNK_SIZE as u64 - 8192) >> 12;
    let data = vec![0xCDu8; 16384];
    be.write(slba, &data).unwrap();
    let mut out = vec![0u8; 16384];
    be.read(slba, &mut out).unwrap();
    assert_eq!(out, data);

    // Untouched region reads zero.
    let mut zeroes = vec![0xFFu8; 4096];
    be.read(0, &mut zeroes).unwrap();
    assert!(zeroes.iter().all(|&b| b == 0));

    // Write zeroes erases.
    be.write_zeroes(LbaRange { slba, nlb: 4 }).unwrap();
    be.read(slba, &mut out).unwrap();
    assert!(out.iter().all(|&b| b == 0));
}

#[test]
fn out_of_range_rejected() {
    let mut be = MemoryBackend::new(1 << 20, 12); // 256 blocks
    let mut buf = vec![0u8; 4096];
    assert_eq!(
        be.read(256, &mut buf).unwrap_err(),
        BackendError::OutOfRange
    );
    assert_eq!(be.read(255, &mut buf), Ok(()));
    assert_eq!(
        be.write(u64::MAX, &buf).unwrap_err(),
        BackendError::OutOfRange
    );
}

#[test]
fn the_null_backend_keeps_nothing() {
    let mut be = NullBackend::new((1 << 20) + 100, 9);
    assert_eq!((be.block_shift(), be.nr_blocks()), (9, 2048));
    be.write(0, &[7u8; 512]).unwrap();
    let mut buf = [1u8; 512];
    be.read(0, &mut buf).unwrap();
    assert!(buf.iter().all(|&b| b == 0));
    assert_eq!(be.read(2048, &mut buf), Err(BackendError::OutOfRange));
    assert_eq!(be.flush(), Ok(()));
    assert_eq!(be.discard(&[LbaRange { slba: 0, nlb: 1 }]), Ok(()));
    assert_eq!(
        be.write_zeroes(LbaRange { slba: 2047, nlb: 2 }),
        Err(BackendError::OutOfRange)
    );
}

#[test]
fn any_backend_goes_to_the_one_it_is() {
    let mut mem = AnyBackend::Memory(MemoryBackend::new(1 << 20, 9));
    let mut null = AnyBackend::Null(NullBackend::new(1 << 20, 12));
    assert_eq!((mem.block_shift(), null.block_shift()), (9, 12));
    assert_eq!((mem.nr_blocks(), null.nr_blocks()), (2048, 256));
    mem.write(1, &[5u8; 512]).unwrap();
    null.write(1, &[5u8; 4096]).unwrap();
    let mut a = [0u8; 512];
    let mut b = [9u8; 4096];
    mem.read(1, &mut a).unwrap();
    null.read(1, &mut b).unwrap();
    assert!(a.iter().all(|&x| x == 5) && b.iter().all(|&x| x == 0));
}

#[test]
fn discarding_memory_is_an_accepted_hint() {
    let mut be = MemoryBackend::new(1 << 20, 9);
    be.write(4, &[3u8; 1024]).unwrap();
    let discarded = be.discard(&[LbaRange { slba: 4, nlb: 1 }]);
    let mut out = [9u8; 1024];
    be.read(4, &mut out).unwrap();
    assert_eq!(discarded, Ok(()));
    assert!(out.iter().all(|&b| b == 3));
    be.set_write_delay_us(250);
    assert_eq!(be.write_delay(), 250);
}

fn memory_subsystem(backend: MemoryBackend) -> Subsystem<MemoryBackend> {
    let mut table = NsMap::new();
    let mut states = AnaBook::new();
    table.insert(Namespace::new(1, Arc::new(backend), [1; 16], &mut states));
    Subsystem::new(
        "nqn.test".to_string(),
        "serial".to_string(),
        "model".to_string(),
        HostAcl::any(),
        table,
        states,
    )
}

fn command(opcode: u8, nsid: u32, slba: u32, nlb0: u32, len: u32) -> Sqe {
    Sqe {
        opcode,
        cid: 77,
        nsid,
        dptr_length: len,
        cdw10: slba,
        cdw12: nlb0,
        ..Sqe::zeroed()
    }
}

fn done(step: Step) -> (Cqe, u32) {
    match step {
        Step::Done(outcome) => (outcome.cqe, outcome.data_len),
        Step::Run(op, _) => panic!("not done: {op:?}"),
    }
}

#[test]
fn a_read_goes_through_the_backend_and_is_counted() {
    let subsys = memory_subsystem(MemoryBackend::new(1 << 20, 9));
    let mut cache = NsCache::default();
    let mut q = NvmeQueue::new(1, 4, 4096, false);
    let tag: u16 = q.slots.claim_tag().unwrap();

    let step = execute(
        &mut q,
        Some(&subsys),
        &mut cache,
        tag,
        &command(io_opcode::READ, 1, 8, 1, 1024),
    );
    let pending = match step {
        Step::Run(BackendOp::Read { slba, len }, pending) => {
            assert_eq!((slba, len), (8, 1024));
            pending
        }
        other => panic!("unexpected step {other:?}"),
    };
    let (cqe, len) = done(resume(&mut q, pending, Ok(())));
    assert_eq!((cqe.cid, cqe.status, len), (77, status::SUCCESS, 1024));
    assert_eq!((q.stats.read_cmds, q.stats.read_bytes), (1, 1024));
}

#[test]
fn a_failed_write_reports_what_failed() {
    let subsys = memory_subsystem(MemoryBackend::new(1 << 20, 9));
    let mut cache = NsCache::default();
    let mut q = NvmeQueue::new(1, 4, 4096, false);
    let tag: u16 = q.slots.claim_tag().unwrap();
    let step = execute(
        &mut q,
        Some(&subsys),
        &mut cache,
        tag,
        &command(io_opcode::FLUSH, 1, 0, 0, 0),
    );
    let pending = match step {
        Step::Run(BackendOp::Flush, pending) => pending,
        other => panic!("unexpected step {other:?}"),
    };
    let (cqe, _) = done(resume(&mut q, pending, Err(BackendError::NoSpace)));
    assert_eq!(cqe.status, status::CAP_EXCEEDED | status::DNR);
    assert_eq!(q.stats.errors, 1);
}

#[test]
fn a_namespace_that_is_not_there_fails_the_command() {
    let subsys = memory_subsystem(MemoryBackend::new(1 << 20, 9));
    let mut cache = NsCache::default();
    let mut q = NvmeQueue::new(1, 4, 4096, false);
    let tag: u16 = q.slots.claim_tag().unwrap();
    let (cqe, _) = done(execute(
        &mut q,
        Some(&subsys),
        &mut cache,
        tag,
        &command(io_opcode::READ, 2, 0, 0, 512),
    ));
    assert_eq!(cqe.status, status::INVALID_NS | status::DNR);
    let (cqe, _) = done(execute(
        &mut q,
        Some(&subsys),
        &mut cache,
        tag,
        &command(0x55, 1, 0, 0, 512),
    ));
    assert_eq!(cqe.status, status::INVALID_OPCODE | status::DNR);
    let (cqe, _) = done(execute(
        &mut q,
        Some(&subsys),
        &mut cache,
        tag,
        &command(io_opcode::READ, 1, 2048, 0, 512),
    ));
    assert_eq!(cqe.status, status::LBA_RANGE | status::DNR);
    let (cqe, _) = done(execute(
        &mut q,
        None,
        &mut cache,
        tag,
        &command(io_opcode::READ, 1, 0, 0, 512),
    ));
    assert_ne!(cqe.status, status::SUCCESS);
}

#[test]
fn each_backend_failure_has_its_status() {
    assert_eq!(nvme_status(BackendError::OutOfRange), 0x4080);
    assert_eq!(nvme_status(BackendError::NoSpace), 0x4081);
    assert_eq!(nvme_status(BackendError::Unsupported), 0x4001);
    assert_eq!(nvme_status(BackendError::Io(5)), 0x4006);
}

#[test]
fn a_write_changes_no_other_block() {
    let mut be = MemoryBackend::new(1 << 20, 9);
    be.write(4, &[7u8; 1024]).unwrap();
    be.write(5, &[9u8; 512]).unwrap();
    let mut out = vec![0u8; 2048];
    be.read(3, &mut out).unwrap();
    assert!(out[..512].iter().all(|&b| b == 0));
    assert!(out[512..1024].iter().all(|&b| b == 7));
    assert!(out[1024..1536].iter().all(|&b| b == 9));
    assert!(out[1536..].iter().all(|&b| b == 0));
}

#[test]
fn attached_storage_is_known_by_its_geometry() {
    let mut be = Attached::new(11, 12, 256);
    assert_eq!((be.id(), be.block_shift(), be.nr_blocks()), (11, 12, 256));
    assert_eq!(be.check_range(255, 2), Err(BackendError::OutOfRange));
    assert_eq!(be.read(0, &mut [0u8; 512]), Err(BackendError::Unsupported));
    assert_eq!(be.flush(), Err(BackendError::Unsupported));
}

#[test]
fn a_queue_has_room_for_the_next_command() {
    let mut q = NvmeQueue::new(1, 4, 4096, false);
    assert!(room_for_one(&q.stats));
    q.stats.errors = u64::MAX;
    assert!(!room_for_one(&q.stats));
}

#[test]
fn a_deallocate_takes_its_ranges_from_the_slot() {
    let subsys = memory_subsystem(MemoryBackend::new(1 << 20, 9));
    let mut cache = NsCache::default();
    let mut q = NvmeQueue::new(1, 4, 4096, false);
    let tag: u16 = q.slots.claim_tag().unwrap();
    let mut dsm = command(io_opcode::DSM, 1, 0, 0, 32);
    dsm.cdw10 = 1; // two ranges
    dsm.cdw11 = 4;
    // Not enough of them arrived.
    let (cqe, _) = done(execute(&mut q, Some(&subsys), &mut cache, tag, &dsm));
    assert_eq!(cqe.status, status::DATA_SGL_LEN_INVALID | status::DNR);

    let mut ranges = [0u8; 32];
    ranges[4..8].copy_from_slice(&8u32.to_le_bytes());
    ranges[8..16].copy_from_slice(&100u64.to_le_bytes());
    ranges[20..24].copy_from_slice(&1u32.to_le_bytes());
    ranges[24..32].copy_from_slice(&7u64.to_le_bytes());
    q.slots.fill(tag, 0, &ranges, 32);
    q.slots.stash_sqe(tag, dsm);
    let dsm = q.slots.slot(tag).stashed_sqe();
    match execute(&mut q, Some(&subsys), &mut cache, tag, &dsm) {
        Step::Run(BackendOp::Discard(v), pending) => {
            assert_eq!(
                v,
                vec![
                    LbaRange { slba: 100, nlb: 8 },
                    LbaRange { slba: 7, nlb: 1 }
                ]
            );
            let (cqe, _) = done(resume(&mut q, pending, Ok(())));
            assert_eq!(cqe.status, status::SUCCESS);
        }
        _ => panic!("a deallocate goes to the backend"),
    }
    // Any other attribute is accepted and does nothing.
    let mut hint = dsm;
    hint.cdw11 = 1;
    let (cqe, _) = done(execute(&mut q, Some(&subsys), &mut cache, tag, &hint));
    assert_eq!(cqe.status, status::SUCCESS);
}

#[test]
fn a_forced_write_is_flushed_before_it_completes() {
    let subsys = memory_subsystem(MemoryBackend::new(1 << 20, 9));
    let mut cache = NsCache::default();
    let mut q = NvmeQueue::new(1, 4, 4096, false);
    let tag: u16 = q.slots.claim_tag().unwrap();
    let write = command(io_opcode::WRITE, 1, 3, 1 << 30, 512);

    // The payload has not arrived.
    let (cqe, _) = done(execute(&mut q, Some(&subsys), &mut cache, tag, &write));
    assert_eq!(cqe.status, status::DATA_XFER_ERROR | status::DNR);

    q.slots.fill(tag, 0, &[5u8; 512], 512);
    let pending = match execute(&mut q, Some(&subsys), &mut cache, tag, &write) {
        Step::Run(BackendOp::Write { slba: 3, len: 512 }, pending) => pending,
        other => panic!("unexpected step {other:?}"),
    };
    let pending = match resume(&mut q, pending, Ok(())) {
        Step::Run(BackendOp::Flush, pending) => pending,
        other => panic!("unexpected step {other:?}"),
    };
    let (cqe, _) = done(resume(&mut q, pending, Ok(())));
    assert_eq!((cqe.status, cqe.sqhd), (status::SUCCESS, 2));
    assert_eq!(
        (q.stats.write_cmds, q.stats.write_bytes, q.stats.errors),
        (2, 512, 1)
    );
}
