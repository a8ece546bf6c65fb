//! The file backend over an in-memory store: roundtrips, write-zeroes, discard.

use ioutgt::backend::{BackendError, LbaRange};
use ioutgt::file::{
    map_errno, retry_buffered, Failure, FileBackend, FileType, OpenError, Transfer, ZeroStep,
    ZeroTask,
};
use ioutgt::pool::Seg;

/// What a store takes per operation at most, so that transfers are short.
const BITE: usize = 50_000;

/// A file of a file system that zeroes ranges, or one that cannot.
struct Store {
    bytes: Vec<u8>,
    allocates: bool,
}

impl Store {
    fn new(size: usize) -> Store {
        Store {
            bytes: vec![0u8; size],
            allocates: true,
        }
    }

    fn transfer(
        &mut self,
        be: &FileBackend,
        slba: u64,
        segs: &[Seg],
        total: usize,
        arena: &mut [u8],
        write: bool,
    ) -> Result<(), BackendError> {
        let Some(mut t) = Transfer::start(be, slba, segs, total)? else {
            return Ok(());
        };
        while let Some(off) = t.next() {
            let mut at = off as usize;
            let mut left = BITE;
            for seg in &t.segs[t.idx..] {
                let n = seg.len.min(left);
                if write {
                    self.bytes[at..at + n].copy_from_slice(&arena[seg.off..seg.off + n]);
                } else {
                    arena[seg.off..seg.off + n].copy_from_slice(&self.bytes[at..at + n]);
                }
                at += n;
                left -= n;
            }
            t.moved(BITE - left)?;
        }
        Ok(())
    }

    fn write(&mut self, be: &FileBackend, slba: u64, buf: &[u8]) -> Result<(), BackendError> {
        let segs = [Seg {
            off: 0,
            len: buf.len(),
        }];
        self.transfer(be, slba, &segs, buf.len(), &mut buf.to_vec(), true)
    }

    fn read(&mut self, be: &FileBackend, slba: u64, buf: &mut [u8]) -> Result<(), BackendError> {
        let segs = [Seg {
            off: 0,
            len: buf.len(),
        }];
        let len = buf.len();
        self.transfer(be, slba, &segs, len, buf, false)
    }

    fn write_zeroes(&mut self, be: &FileBackend, range: LbaRange) -> Result<(), BackendError> {
        let mut task = ZeroTask::start(be, range)?;
        loop {
            match task.next() {
                ZeroStep::Fallocate { at, .. } => {
                    if self.allocates {
                        self.bytes[at.off as usize..(at.off + at.len) as usize].fill(0);
                    }
                    task.allocated(self.allocates);
                }
                ZeroStep::Write { off, want } => {
                    let n = (want as usize).min(BITE);
                    self.bytes[off as usize..off as usize + n].fill(0);
                    task.wrote(n as u32)?;
                }
                ZeroStep::Finish(r) => return r,
            }
        }
    }

    fn discard(&mut self, be: &FileBackend, ranges: &[LbaRange]) -> Result<(), BackendError> {
        let (holes, answer) = be.discard(ranges);
        for hole in holes {
            self.bytes[hole.off as usize..(hole.off + hole.len) as usize].fill(0);
        }
        answer
    }
}

#[test]
fn direct_write_read_roundtrip() {
    let mut store = Store::new(8 << 20);
    let be = FileBackend::open(FileType::Regular, 8 << 20, 9, true).unwrap();
    assert!(be.is_direct());
    assert_eq!(be.nr_blocks(), (8 << 20) / 512);

    let pattern: Vec<u8> = (0..128 * 1024).map(|i| (i % 251) as u8).collect();
    store.write(&be, 64, &pattern).unwrap();

    let mut out = vec![0u8; 128 * 1024];
    store.read(&be, 64, &mut out).unwrap();
    assert_eq!(out, pattern, "128K roundtrip");

    // Write-zeroes the first 8K of the range and re-check.
    store
        .write_zeroes(&be, LbaRange { slba: 64, nlb: 16 })
        .unwrap();
    store.read(&be, 64, &mut out).unwrap();
    assert!(out[..8192].iter().all(|&b| b == 0), "zeroed range");
    assert_eq!(&out[8192..], &pattern[8192..], "rest untouched");

    // Discard is a hint: must succeed; reads stay readable.
    store
        .discard(&be, &[LbaRange { slba: 64, nlb: 256 }])
        .unwrap();
    store.read(&be, 64, &mut out[..4096]).unwrap();

    // Out-of-range rejected.
    let err = store
        .read(&be, be.nr_blocks(), &mut out[..512])
        .unwrap_err();
    assert_eq!(err, BackendError::OutOfRange);
}

#[test]
fn scattered_write_matches_contiguous() {
    // A two-segment vectored write must land byte-identically to one
    // contiguous write of the concatenation.
    let mut store = Store::new(8 << 20);
    let be = FileBackend::open(FileType::Regular, 8 << 20, 12, true).unwrap(); // 4K blocks

    // Two separate runs of an arena, not next to each other.
    let mut arena = vec![0u8; 65536];
    arena[..8192].fill(0xAB);
    arena[32768..36864].fill(0xCD);
    let segs = [
        Seg { off: 0, len: 8192 },
        Seg {
            off: 32768,
            len: 4096,
        },
    ];
    store
        .transfer(&be, 0, &segs, 12288, &mut arena, true)
        .unwrap();

    // Read it back into a fresh buffer and check the seam.
    let mut r = vec![0u8; 12288];
    store.read(&be, 0, &mut r).unwrap();
    assert!(r[..8192].iter().all(|&x| x == 0xAB), "first segment");
    assert!(r[8192..].iter().all(|&x| x == 0xCD), "second segment");
}

#[test]
fn temp_dir_roundtrip_either_path() {
    // A store may refuse O_DIRECT or take it; the backend must open and
    // round-trip on whichever it is.
    for direct in [false, true] {
        let mut store = Store::new(1 << 20);
        let be = FileBackend::open(FileType::Regular, 1 << 20, 9, direct).unwrap();
        assert_eq!(be.is_direct(), direct);
        let pattern = vec![0x5Au8; 4096];
        store.write(&be, 8, &pattern).unwrap();
        let mut out = vec![0u8; 4096];
        store.read(&be, 8, &mut out).unwrap();
        assert_eq!(out, pattern);
    }
}

#[test]
fn ring_off_keeps_direct_on_real_fs() {
    // A store that took O_DIRECT keeps it; one whose direct open was refused
    // for what it is, is tried again buffered.
    let be = FileBackend::open(FileType::Regular, 8 << 20, 9, true).unwrap();
    assert!(be.is_direct(), "a store that takes O_DIRECT must keep it");
    assert!(retry_buffered(22) && retry_buffered(95));
    assert!(!retry_buffered(2));
}

#[test]
fn open_rejects_missing_and_tiny() {
    let missing = FileBackend::open(FileType::Other, 1 << 20, 9, false);
    assert_eq!(missing.unwrap_err(), OpenError::NotStorage);
    // < one block
    let tiny = FileBackend::open(FileType::Regular, 256, 9, false).unwrap_err();
    assert_eq!(tiny, OpenError::TooSmall);
    assert_eq!(tiny.message(), "backing store too small");
}

#[test]
fn zeroes_are_written_where_nothing_else_zeroes() {
    let mut store = Store::new(1 << 20);
    store.allocates = false;
    let be = FileBackend::open(FileType::Regular, 1 << 20, 9, true).unwrap();
    store.write(&be, 0, &[7u8; 262_144]).unwrap();
    store
        .write_zeroes(&be, LbaRange { slba: 1, nlb: 400 })
        .unwrap();
    assert!(store.bytes[..512].iter().all(|&b| b == 7));
    assert!(store.bytes[512..401 * 512].iter().all(|&b| b == 0));
    assert!(store.bytes[401 * 512..262_144].iter().all(|&b| b == 7));

    // A block device is never asked to allocate or to punch.
    let mut disk = Store::new(1 << 20);
    let bdev = FileBackend::open(FileType::Block, 1 << 20, 9, true).unwrap();
    disk.write(&bdev, 0, &[7u8; 1024]).unwrap();
    disk.discard(&bdev, &[LbaRange { slba: 0, nlb: 1 }]).unwrap();
    assert_eq!(disk.bytes[0], 7);
    disk.write_zeroes(&bdev, LbaRange { slba: 0, nlb: 1 })
        .unwrap();
    assert_eq!((disk.bytes[0], disk.bytes[512]), (0, 7));
}

#[test]
fn errnos_become_backend_errors() {
    assert_eq!(map_errno(28), BackendError::NoSpace);
    assert_eq!(map_errno(95), BackendError::Unsupported);
    assert_eq!(map_errno(5), BackendError::Io(5));
    assert_eq!(Failure::Submit(Some(28)).error(), BackendError::Io(28));
    assert_eq!(Failure::Complete(Some(28)).error(), BackendError::NoSpace);
    assert_eq!(Failure::Complete(None).error(), BackendError::Io(5));
    // A transfer that moves nothing is an error, not an endless loop.
    let be = FileBackend::open(FileType::Regular, 1 << 20, 9, true).unwrap();
    let segs = [Seg { off: 0, len: 512 }];
    let mut t = Transfer::start(&be, 0, &segs, 512).unwrap().unwrap();
    assert_eq!(t.moved(0), Err(BackendError::Io(5)));
}
