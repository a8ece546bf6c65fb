//! File and block-device backend: the geometry an opened store has, and the
//! transfers, hole punches and zero writes an IO takes.
//!
//! One implementation serves both regular files and block devices (geometry
//! probing differs; the IO path is identical). A single fd is opened
//! `O_DIRECT`, falling back to a plain buffered fd when the store refuses it;
//! the choice is fixed at open.

use vstd::prelude::*;

use crate::backend;
use crate::backend::{blocks_in, bytes_in, check_blocks, BackendError, LbaRange};
use crate::pool::Seg;

verus! {

/// IO error.
pub const EIO: i32 = 5;

/// Invalid argument.
pub const EINVAL: i32 = 22;

/// No space left on device.
pub const ENOSPC: i32 = 28;

/// Operation not supported.
pub const EOPNOTSUPP: i32 = 95;

/// Keep the file's size.
pub const FALLOC_FL_KEEP_SIZE: i32 = 1;

/// Punch a hole.
pub const FALLOC_FL_PUNCH_HOLE: i32 = 2;

/// Zero a range.
pub const FALLOC_FL_ZERO_RANGE: i32 = 16;

/// Punch a hole and keep the file's size.
pub const PUNCH: i32 = 3;

/// Bytes of zeroes written at a time.
pub const ZERO_CHUNK: u64 = 65536;

/// What a path leads to.
#[derive(Debug, Clone, Copy, PartialEq, Eq, Structural)]
pub enum FileType {
    /// A regular file.
    Regular,
    /// A block device.
    Block,
    /// Anything else.
    Other,
}

/// Backing kind, decided at open.
#[derive(Debug, Clone, Copy, PartialEq, Eq, Structural)]
pub enum Kind {
    /// A regular file.
    Regular,
    /// A block device.
    Block,
}

/// Why a store cannot be served.
#[derive(Debug, Clone, Copy, PartialEq, Eq, Structural)]
pub enum OpenError {
    /// It is neither a file nor a block device.
    NotStorage,
    /// It holds no block.
    TooSmall,
}

impl OpenError {
    /// What the refusal says.
    pub fn message(&self) -> (r: &'static str)
        ensures
            r@ == (match self {
                OpenError::NotStorage => "not a file or block device"@,
                OpenError::TooSmall => "backing store too small"@,
            }),
    {
        match self {
            OpenError::NotStorage => "not a file or block device",
            OpenError::TooSmall => "backing store too small",
        }
    }
}

/// File/bdev backend; O_DIRECT or buffered, fixed at open.
#[derive(Debug, Clone, Copy, PartialEq, Eq)]
pub struct FileBackend {
    /// File or device.
    pub kind: Kind,
    /// log2 of the logical block size.
    pub block_shift: u8,
    /// Capacity in logical blocks.
    pub nr_blocks: u64,
    /// O_DIRECT is in effect (false ⇒ the store refused it, IO is buffered).
    pub direct: bool,
}

/// Whether a direct open that failed with `errno` is tried again buffered.
pub fn retry_buffered(errno: i32) -> (r: bool)
    ensures
        r == (errno == EINVAL || errno == EOPNOTSUPP),
{
    errno == EINVAL || errno == EOPNOTSUPP
}

/// The backend error of an IO that completed with `errno`.
pub open spec fn errno_error(errno: i32) -> BackendError {
    if errno == ENOSPC {
        BackendError::NoSpace
    } else if errno == EOPNOTSUPP || errno == EINVAL {
        BackendError::Unsupported
    } else {
        BackendError::Io(errno)
    }
}

/// The backend error of an IO that completed with `errno`.
pub fn map_errno(errno: i32) -> (r: BackendError)
    ensures
        r == errno_error(errno),
{
    if errno == ENOSPC {
        BackendError::NoSpace
    } else if errno == EOPNOTSUPP || errno == EINVAL {
        BackendError::Unsupported
    } else {
        BackendError::Io(errno)
    }
}

/// How an IO failed: it could not be submitted, or it completed with an error.
#[derive(Debug, Clone, Copy, PartialEq, Eq, Structural)]
pub enum Failure {
    /// Not submitted.
    Submit(Option<i32>),
    /// Completed with an error.
    Complete(Option<i32>),
}

/// The errno of a failure that may carry none.
pub open spec fn errno_of(e: Option<i32>) -> i32 {
    match e {
        Some(n) => n,
        None => EIO,
    }
}

/// The backend error of a failed IO.
pub open spec fn failure_error(f: Failure) -> BackendError {
    match f {
        Failure::Submit(e) => BackendError::Io(errno_of(e)),
        Failure::Complete(e) => errno_error(errno_of(e)),
    }
}

impl Failure {
    /// The backend error of a failed IO.
    pub fn error(&self) -> (r: BackendError)
        ensures
            r == failure_error(*self),
    {
        match self {
            Failure::Submit(Some(n)) => BackendError::Io(*n),
            Failure::Submit(None) => BackendError::Io(EIO),
            Failure::Complete(Some(n)) => map_errno(*n),
            Failure::Complete(None) => map_errno(EIO),
        }
    }
}

// ---------------------------------------------------------------------------
// Segments
// ---------------------------------------------------------------------------

/// `segs` from `k` on, clamped to `total` bytes.
pub open spec fn clamped(segs: Seq<Seg>, k: int, total: nat) -> Seq<Seg>
    decreases segs.len() - k,
{
    if k < 0 || k >= segs.len() || total == 0 {
        seq![]
    } else {
        let take = if total < segs[k].len {
            total as usize
        } else {
            segs[k].len
        };
        seq![Seg { off: segs[k].off, len: take }] + clamped(segs, k + 1, (total - take) as nat)
    }
}

/// The bytes of `segs` from `k` on.
pub open spec fn seg_bytes(segs: Seq<Seg>, k: int) -> nat
    decreases segs.len() - k,
{
    if k < 0 || k >= segs.len() {
        0
    } else {
        segs[k].len as nat + seg_bytes(segs, k + 1)
    }
}

/// The segments an IO of `total` bytes moves.
pub fn fill_iovecs(segs: &[Seg], total: usize) -> (r: Vec<Seg>)
    ensures
        r@ == clamped(segs@, 0, total as nat),
{
    let mut r: Vec<Seg> = Vec::new();
    let n: usize = segs.len();
    let mut k: usize = 0;
    let mut remaining: usize = total;
    assert(r@ + clamped(segs@, 0, total as nat) =~= clamped(segs@, 0, total as nat));
    while k < n && remaining > 0
        invariant
            k <= n == segs@.len(),
            r@ + clamped(segs@, k as int, remaining as nat) == clamped(segs@, 0, total as nat),
        decreases n - k,
    {
        let take: usize = if remaining < segs[k].len {
            remaining
        } else {
            segs[k].len
        };
        let ghost before = r@;
        let s = Seg { off: segs[k].off, len: take };
        r.push(s);
        proof {
            let rest = clamped(segs@, k + 1, (remaining - take) as nat);
            assert(r@ + rest =~= before + (seq![s] + rest));
        }
        remaining = remaining - take;
        k = k + 1;
    }
    assert(r@ + clamped(segs@, k as int, remaining as nat) =~= r@);
    r
}

/// The segments clamped to `total` hold `total` bytes, or all there are.
pub proof fn lemma_clamped(segs: Seq<Seg>, k: int, total: nat)
    requires
        0 <= k <= segs.len(),
    ensures
        seg_bytes(clamped(segs, k, total), 0) == (if total < seg_bytes(segs, k) {
            total
        } else {
            seg_bytes(segs, k)
        }),
    decreases segs.len() - k,
{
    if k < segs.len() && total > 0 {
        let take = if total < segs[k].len {
            total as usize
        } else {
            segs[k].len
        };
        let rest = clamped(segs, k + 1, (total - take) as nat);
        lemma_clamped(segs, k + 1, (total - take) as nat);
        lemma_seg_bytes_cons(Seg { off: segs[k].off, len: take }, rest);
    }
}

proof fn lemma_seg_bytes_cons(s: Seg, rest: Seq<Seg>)
    ensures
        seg_bytes(seq![s] + rest, 0) == s.len + seg_bytes(rest, 0),
{
    lemma_seg_bytes_shift(seq![s] + rest, rest, 1);
}

proof fn lemma_seg_bytes_shift(a: Seq<Seg>, b: Seq<Seg>, k: int)
    requires
        1 <= k,
        a.len() == b.len() + 1,
        forall|i: int| 0 <= i < b.len() ==> a[i + 1] == #[trigger] b[i],
    ensures
        seg_bytes(a, k) == seg_bytes(b, k - 1),
    decreases a.len() - k,
{
    if k < a.len() {
        assert(a[(k - 1) + 1] == b[k - 1]);
        lemma_seg_bytes_shift(a, b, k + 1);
    }
}

/// `segs[idx..]` past `n` transferred bytes.
pub open spec fn advanced(segs: Seq<Seg>, idx: int, n: nat) -> (Seq<Seg>, int)
    decreases segs.len() - idx,
{
    if n == 0 || idx < 0 || idx >= segs.len() {
        (segs, idx)
    } else if segs[idx].len <= n {
        advanced(segs, idx + 1, (n - segs[idx].len) as nat)
    } else {
        (
            segs.update(
                idx,
                Seg { off: (segs[idx].off + n) as usize, len: (segs[idx].len - n) as usize },
            ),
            idx,
        )
    }
}

/// Advance `segs[idx..]` past `n` transferred bytes (short-IO resume).
pub fn advance_iovecs(segs: &mut Vec<Seg>, idx: usize, n: usize) -> (r: usize)
    requires
        idx <= old(segs)@.len(),
        n <= seg_bytes(old(segs)@, idx as int),
        forall|i: int|
            0 <= i < old(segs)@.len() ==> (#[trigger] old(segs)@[i]).off + old(segs)@[i].len
                <= usize::MAX,
    ensures
        (final(segs)@, r as int) == advanced(old(segs)@, idx as int, n as nat),
        r <= final(segs)@.len(),
        final(segs)@.len() == old(segs)@.len(),
        seg_bytes(final(segs)@, r as int) == seg_bytes(old(segs)@, idx as int) - n,
        forall|i: int|
            0 <= i < final(segs)@.len() ==> (#[trigger] final(segs)@[i]).off + final(segs)@[i].len
                <= usize::MAX,
{
    let mut at: usize = idx;
    let mut left: usize = n;
    let count: usize = segs.len();
    while left > 0
        invariant
            segs@ == old(segs)@,
            count == segs@.len(),
            idx <= at <= segs@.len(),
            left <= seg_bytes(segs@, at as int),
            seg_bytes(segs@, at as int) - left == seg_bytes(segs@, idx as int) - n,
            advanced(segs@, at as int, left as nat) == advanced(segs@, idx as int, n as nat),
            forall|i: int|
                0 <= i < segs@.len() ==> (#[trigger] segs@[i]).off + segs@[i].len <= usize::MAX,
        decreases left, segs@.len() - at,
    {
        let s = segs[at];
        if s.len <= left {
            left = left - s.len;
            at = at + 1;
        } else {
            let ghost before = segs@;
            segs[at] = Seg { off: s.off + left, len: s.len - left };
            proof {
                lemma_seg_bytes_tail(before, segs@, at as int + 1);
            }
            return at;
        }
    }
    at
}

proof fn lemma_seg_bytes_tail(a: Seq<Seg>, b: Seq<Seg>, k: int)
    requires
        0 <= k,
        a.len() == b.len(),
        forall|i: int| k <= i < a.len() ==> a[i] == #[trigger] b[i],
    ensures
        seg_bytes(a, k) == seg_bytes(b, k),
    decreases a.len() - k,
{
    if k < a.len() {
        assert(a[k] == b[k]);
        lemma_seg_bytes_tail(a, b, k + 1);
    }
}

// ---------------------------------------------------------------------------
// The backend
// ---------------------------------------------------------------------------

impl FileBackend {
    /// Every block's bytes count in 64 bits.
    pub open spec fn wf(&self) -> bool {
        &&& self.block_shift < 64
        &&& self.nr_blocks * backend::block_size(self.block_shift) <= u64::MAX
    }

    /// The backend an opened store of `size` bytes makes. What is neither a file
    /// nor a block device, and what holds less than one block, is refused.
    pub fn open(file: FileType, size: u64, block_shift: u8, direct: bool) -> (r: Result<
        FileBackend,
        OpenError,
    >)
        requires
            block_shift < 64,
        ensures
            ({
                let blocks = size as nat / backend::block_size(block_shift);
                match r {
                    Ok(b) => {
                        &&& b.wf()
                        &&& file is Regular || file is Block
                        &&& blocks > 0
                        &&& b.kind == (if file is Regular {
                            Kind::Regular
                        } else {
                            Kind::Block
                        })
                        &&& b.block_shift == block_shift
                        &&& b.nr_blocks == blocks
                        &&& b.direct == direct
                    },
                    Err(OpenError::NotStorage) => file is Other,
                    Err(OpenError::TooSmall) => !(file is Other) && blocks == 0,
                }
            }),
    {
        let kind = match file {
            FileType::Regular => Kind::Regular,
            FileType::Block => Kind::Block,
            FileType::Other => {
                return Err(OpenError::NotStorage);
            },
        };
        let nr_blocks: u64 = blocks_in(size, block_shift);
        if nr_blocks == 0 {
            return Err(OpenError::TooSmall);
        }
        Ok(FileBackend { kind, block_shift, nr_blocks, direct })
    }

    /// O_DIRECT is in effect for this backend's IO (decided at open).
    pub fn is_direct(&self) -> (r: bool)
        ensures
            r == self.direct,
    {
        self.direct
    }

    /// log2 of the logical block size.
    pub fn block_shift(&self) -> (r: u8)
        ensures
            r == self.block_shift,
    {
        self.block_shift
    }

    /// Capacity in logical blocks.
    pub fn nr_blocks(&self) -> (r: u64)
        ensures
            r == self.nr_blocks,
    {
        self.nr_blocks
    }

    /// The extents an IO of `ranges` to deallocate punches out, one hole each,
    /// and the answer. Deallocate is a hint: what comes of a hole is not
    /// looked at, and a block device has none made. A range beyond the device
    /// ends it, after the holes of those before it.
    pub fn discard(&self, ranges: &[LbaRange]) -> (r: (Vec<Extent>, Result<(), BackendError>))
        requires
            self.wf(),
        ensures
            r.0@ == holes(*self, ranges@, 0),
            r.1 == (if self.kind is Block || all_in_range(*self, ranges@, 0) {
                Ok::<(), BackendError>(())
            } else {
                Err(BackendError::OutOfRange)
            }),
    {
        let mut out: Vec<Extent> = Vec::new();
        match self.kind {
            Kind::Regular => {},
            Kind::Block => {
                return (out, Ok(()));
            },
        }
        let n: usize = ranges.len();
        let mut k: usize = 0;
        assert(out@ + holes(*self, ranges@, 0) =~= holes(*self, ranges@, 0));
        while k < n
            invariant
                k <= n == ranges@.len(),
                self.wf(),
                self.kind is Regular,
                out@ + holes(*self, ranges@, k as int) == holes(*self, ranges@, 0),
                all_in_range(*self, ranges@, 0) == all_in_range(*self, ranges@, k as int),
            decreases n - k,
        {
            let range: LbaRange = ranges[k];
            match check_blocks(self.nr_blocks, range.slba, range.nlb as u64) {
                Err(_) => {
                    assert(out@ + holes(*self, ranges@, k as int) =~= out@);
                    return (out, Err(BackendError::OutOfRange));
                },
                Ok(()) => {},
            }
            let e = self.extent(range);
            let ghost before = out@;
            out.push(e);
            proof {
                let rest = holes(*self, ranges@, k + 1);
                assert(out@ + rest =~= before + (seq![e] + rest));
            }
            k = k + 1;
        }
        assert(out@ + holes(*self, ranges@, k as int) =~= out@);
        (out, Ok(()))
    }

    /// The bytes of a range of blocks.
    fn extent(&self, range: LbaRange) -> (r: Extent)
        requires
            self.wf(),
            backend::in_range(self.nr_blocks, range.slba, range.nlb as u64),
        ensures
            r == extent_of(*self, range),
            r.off + r.len <= u64::MAX,
    {
        proof {
            backend::lemma_in_range(
                self.nr_blocks,
                range.slba,
                range.nlb as u64,
                self.block_shift,
            );
        }
        Extent {
            off: bytes_in(range.slba, self.block_shift),
            len: bytes_in(range.nlb as u64, self.block_shift),
        }
    }
}

/// A run of bytes of the store.
#[derive(Debug, Clone, Copy, PartialEq, Eq, Structural)]
pub struct Extent {
    /// First byte.
    pub off: u64,
    /// Bytes.
    pub len: u64,
}

/// The bytes of a range of blocks.
pub open spec fn extent_of(b: FileBackend, range: LbaRange) -> Extent {
    Extent {
        off: (range.slba * backend::block_size(b.block_shift)) as u64,
        len: (range.nlb * backend::block_size(b.block_shift)) as u64,
    }
}

/// Whether the ranges from `k` on all end by the last block.
pub open spec fn all_in_range(b: FileBackend, ranges: Seq<LbaRange>, k: int) -> bool
    decreases ranges.len() - k,
{
    if k < 0 || k >= ranges.len() {
        true
    } else {
        backend::in_range(b.nr_blocks, ranges[k].slba, ranges[k].nlb as u64) && all_in_range(
            b,
            ranges,
            k + 1,
        )
    }
}

/// The holes punched for the ranges from `k` on: up to the first that is
/// beyond the device.
pub open spec fn holes(b: FileBackend, ranges: Seq<LbaRange>, k: int) -> Seq<Extent>
    decreases ranges.len() - k,
{
    if b.kind is Block || k < 0 || k >= ranges.len() || !backend::in_range(
        b.nr_blocks,
        ranges[k].slba,
        ranges[k].nlb as u64,
    ) {
        seq![]
    } else {
        seq![extent_of(b, ranges[k])] + holes(b, ranges, k + 1)
    }
}

// ---------------------------------------------------------------------------
// Reads and writes
// ---------------------------------------------------------------------------

/// A vectored read or write under way, resumed across short transfers.
#[derive(Debug)]
pub struct Transfer {
    /// Where it starts in the store.
    pub base: u64,
    /// Bytes in all.
    pub total: usize,
    /// Bytes done.
    pub done: usize,
    /// What is left of the segments, from `idx` on.
    pub segs: Vec<Seg>,
    /// The first segment that is not done.
    pub idx: usize,
}

impl Transfer {
    /// What is left of the segments is what is left of the transfer.
    pub open spec fn wf(&self) -> bool {
        &&& self.done <= self.total
        &&& self.base + self.total <= u64::MAX
        &&& self.idx <= self.segs@.len()
        &&& seg_bytes(self.segs@, self.idx as int) == self.total - self.done
        &&& forall|i: int|
            0 <= i < self.segs@.len() ==> (#[trigger] self.segs@[i]).off + self.segs@[i].len
                <= usize::MAX
    }

    /// A transfer of `total` bytes between the store from block `slba` on and
    /// `segs`, which hold that many bytes; `None` where there is nothing to
    /// move.
    pub fn start(be: &FileBackend, slba: u64, segs: &[Seg], total: usize) -> (r: Result<
        Option<Transfer>,
        BackendError,
    >)
        requires
            be.wf(),
            total <= seg_bytes(segs@, 0),
            forall|i: int|
                0 <= i < segs@.len() ==> (#[trigger] segs@[i]).off + segs@[i].len <= usize::MAX,
            slba <= be.nr_blocks ==> slba * backend::block_size(be.block_shift) + total
                <= u64::MAX,
        ensures
            ({
                let blocks = total as nat / backend::block_size(be.block_shift);
                match r {
                    Ok(None) => total == 0,
                    Ok(Some(t)) => {
                        &&& total > 0
                        &&& t.wf()
                        &&& backend::in_range(be.nr_blocks, slba, blocks as u64)
                        &&& t.base == slba * backend::block_size(be.block_shift)
                        &&& t.total == total
                        &&& t.done == 0
                        &&& t.idx == 0
                        &&& t.segs@ == clamped(segs@, 0, total as nat)
                    },
                    Err(e) => total > 0 && e == BackendError::OutOfRange && !backend::in_range(
                        be.nr_blocks,
                        slba,
                        blocks as u64,
                    ),
                }
            }),
    {
        if total == 0 {
            return Ok(None);
        }
        match check_blocks(be.nr_blocks, slba, blocks_in(total as u64, be.block_shift)) {
            Err(e) => {
                return Err(e);
            },
            Ok(()) => {},
        }
        let list = fill_iovecs(segs, total);
        proof {
            lemma_clamped(segs@, 0, total as nat);
            lemma_clamped_fits(segs@, 0, total as nat);
            backend::lemma_in_range(be.nr_blocks, slba, 0, be.block_shift);
        }
        Ok(
            Some(
                Transfer {
                    base: bytes_in(slba, be.block_shift),
                    total,
                    done: 0,
                    segs: list,
                    idx: 0,
                },
            ),
        )
    }

    /// Where the next transfer goes in the store, from segment `idx` on; `None`
    /// when all is done.
    pub fn next(&self) -> (r: Option<u64>)
        requires
            self.wf(),
        ensures
            r == (if self.done < self.total {
                Some((self.base + self.done) as u64)
            } else {
                None
            }),
    {
        if self.done < self.total {
            Some(self.base + self.done as u64)
        } else {
            None
        }
    }

    /// `n` bytes were moved; none at all is an IO error.
    pub fn moved(&mut self, n: usize) -> (r: Result<(), BackendError>)
        requires
            old(self).wf(),
            n <= old(self).total - old(self).done,
        ensures
            final(self).wf(),
            final(self).base == old(self).base,
            final(self).total == old(self).total,
            if n == 0 {
                r == Err::<(), BackendError>(BackendError::Io(EIO)) && *final(self) == *old(self)
            } else {
                &&& r is Ok
                &&& final(self).done == old(self).done + n
                &&& (final(self).segs@, final(self).idx as int) == advanced(
                    old(self).segs@,
                    old(self).idx as int,
                    n as nat,
                )
            },
    {
        if n == 0 {
            return Err(BackendError::Io(EIO));
        }
        self.idx = advance_iovecs(&mut self.segs, self.idx, n);
        self.done = self.done + n;
        Ok(())
    }
}

/// Where byte `i` of `segs` from `k` on lies.
pub open spec fn place(segs: Seq<Seg>, k: int, i: nat) -> int
    decreases segs.len() - k,
{
    if k < 0 || k >= segs.len() {
        0
    } else if i < segs[k].len {
        segs[k].off + i
    } else {
        place(segs, k + 1, (i - segs[k].len) as nat)
    }
}

/// A transfer moves the bytes of its segments in order: byte `i` of it lies
/// where byte `i` of the segments does.
pub proof fn lemma_transfer_in_order(segs: Seq<Seg>, k: int, total: nat, i: nat)
    requires
        0 <= k <= segs.len(),
        i < total <= seg_bytes(segs, k),
    ensures
        place(clamped(segs, k, total), 0, i) == place(segs, k, i),
    decreases segs.len() - k,
{
    let take = if total < segs[k].len {
        total as usize
    } else {
        segs[k].len
    };
    let rest = clamped(segs, k + 1, (total - take) as nat);
    let all = clamped(segs, k, total);
    assert(all == seq![Seg { off: segs[k].off, len: take }] + rest);
    if i >= take {
        lemma_transfer_in_order(segs, k + 1, (total - take) as nat, (i - take) as nat);
        lemma_place_shift(all, rest, 1, (i - take) as nat);
    }
}

proof fn lemma_place_shift(a: Seq<Seg>, b: Seq<Seg>, k: int, i: nat)
    requires
        1 <= k,
        a.len() == b.len() + 1,
        forall|j: int| 0 <= j < b.len() ==> a[j + 1] == #[trigger] b[j],
    ensures
        place(a, k, i) == place(b, k - 1, i),
    decreases a.len() - k,
{
    if k < a.len() {
        assert(a[(k - 1) + 1] == b[k - 1]);
        if i >= a[k].len {
            lemma_place_shift(a, b, k + 1, (i - a[k].len) as nat);
        }
    }
}

proof fn lemma_place_tail(a: Seq<Seg>, b: Seq<Seg>, k: int, i: nat)
    requires
        0 <= k,
        a.len() == b.len(),
        forall|j: int| k <= j < a.len() ==> a[j] == #[trigger] b[j],
    ensures
        place(a, k, i) == place(b, k, i),
    decreases a.len() - k,
{
    if k < a.len() {
        assert(a[k] == b[k]);
        if i >= a[k].len {
            lemma_place_tail(a, b, k + 1, (i - a[k].len) as nat);
        }
    }
}

proof fn lemma_advanced_place(segs: Seq<Seg>, idx: int, n: nat, i: nat)
    requires
        0 <= idx <= segs.len(),
        n + i < seg_bytes(segs, idx),
        forall|j: int|
            0 <= j < segs.len() ==> (#[trigger] segs[j]).off + segs[j].len <= usize::MAX,
    ensures
        ({
            let (after, at) = advanced(segs, idx, n);
            place(after, at, i) == place(segs, idx, n + i)
        }),
    decreases segs.len() - idx,
{
    if n > 0 {
        if segs[idx].len <= n {
            lemma_advanced_place(segs, idx + 1, (n - segs[idx].len) as nat, i);
        } else {
            let (after, at) = advanced(segs, idx, n);
            if i >= after[at].len {
                lemma_place_tail(segs, after, idx + 1, (i - after[at].len) as nat);
            }
        }
    }
}

/// However a transfer is cut up by short ones, its bytes keep their places:
/// what is left of it goes on where it ended, in the store and in the segments.
/// A write in several segments so leaves what one write of their concatenation
/// would.
pub proof fn lemma_short_transfer_resumes(before: Transfer, after: Transfer, n: usize, i: nat)
    requires
        before.wf(),
        0 < n,
        n + i < before.total - before.done,
        after.base == before.base,
        after.done == before.done + n,
        (after.segs@, after.idx as int) == advanced(before.segs@, before.idx as int, n as nat),
    ensures
        place(after.segs@, after.idx as int, i) == place(
            before.segs@,
            before.idx as int,
            n as nat + i,
        ),
        after.base + after.done + i == before.base + before.done + (n + i),
{
    lemma_advanced_place(before.segs@, before.idx as int, n as nat, i);
}

proof fn lemma_clamped_fits(segs: Seq<Seg>, k: int, total: nat)
    requires
        0 <= k <= segs.len(),
        forall|i: int|
            0 <= i < segs.len() ==> (#[trigger] segs[i]).off + segs[i].len <= usize::MAX,
    ensures
        forall|i: int|
            0 <= i < clamped(segs, k, total).len() ==> (#[trigger] clamped(segs, k, total)[i]).off
                + clamped(segs, k, total)[i].len <= usize::MAX,
    decreases segs.len() - k,
{
    if k < segs.len() && total > 0 {
        let take = if total < segs[k].len {
            total as usize
        } else {
            segs[k].len
        };
        let rest = clamped(segs, k + 1, (total - take) as nat);
        lemma_clamped_fits(segs, k + 1, (total - take) as nat);
        let all = clamped(segs, k, total);
        assert forall|i: int| 0 <= i < all.len() implies (#[trigger] all[i]).off + all[i].len
            <= usize::MAX by {
            if i > 0 {
                assert(all[i] == rest[i - 1]);
            } else {
                assert(segs[k].off + segs[k].len <= usize::MAX);
            }
        }
    }
}

// ---------------------------------------------------------------------------
// Zeroes
// ---------------------------------------------------------------------------

/// A write of zeroes under way.
#[derive(Debug, Clone, Copy, PartialEq, Eq, Structural)]
pub enum ZeroTask {
    /// The file system is asked to zero the range.
    Zeroing(Extent),
    /// The file system is asked to punch it out.
    Punching(Extent),
    /// Zeroes are written, this much left.
    Writing(Extent),
    /// It is over.
    Over,
}

/// What a write of zeroes does next.
#[derive(Debug, Clone, Copy, PartialEq, Eq)]
pub enum ZeroStep {
    /// `fallocate` the extent in this mode.
    Fallocate {
        /// Mode.
        mode: i32,
        /// The extent.
        at: Extent,
    },
    /// Write zeroes.
    Write {
        /// First byte.
        off: u64,
        /// Bytes.
        want: u32,
    },
    /// It is over.
    Finish(Result<(), BackendError>),
}

/// What a task does next.
pub open spec fn zero_step(t: ZeroTask) -> ZeroStep {
    match t {
        ZeroTask::Zeroing(at) => ZeroStep::Fallocate { mode: FALLOC_FL_ZERO_RANGE, at },
        ZeroTask::Punching(at) => ZeroStep::Fallocate { mode: PUNCH, at },
        ZeroTask::Writing(at) => if at.len == 0 {
            ZeroStep::Finish(Ok(()))
        } else {
            ZeroStep::Write {
                off: at.off,
                want: (if at.len < ZERO_CHUNK {
                    at.len
                } else {
                    ZERO_CHUNK
                }) as u32,
            }
        },
        ZeroTask::Over => ZeroStep::Finish(Ok(())),
    }
}

impl ZeroTask {
    /// What is left ends in 64 bits.
    pub open spec fn wf(&self) -> bool {
        match self {
            ZeroTask::Zeroing(e) => e.off + e.len <= u64::MAX,
            ZeroTask::Punching(e) => e.off + e.len <= u64::MAX,
            ZeroTask::Writing(e) => e.off + e.len <= u64::MAX,
            ZeroTask::Over => true,
        }
    }

    /// A write of zeroes over `range`: the file system is asked first, a block
    /// device is written.
    pub fn start(be: &FileBackend, range: LbaRange) -> (r: Result<ZeroTask, BackendError>)
        requires
            be.wf(),
        ensures
            match r {
                Ok(t) => {
                    &&& backend::in_range(be.nr_blocks, range.slba, range.nlb as u64)
                    &&& t.wf()
                    &&& t == (if be.kind is Regular {
                        ZeroTask::Zeroing(extent_of(*be, range))
                    } else {
                        ZeroTask::Writing(extent_of(*be, range))
                    })
                },
                Err(e) => e == BackendError::OutOfRange && !backend::in_range(
                    be.nr_blocks,
                    range.slba,
                    range.nlb as u64,
                ),
            },
    {
        match check_blocks(be.nr_blocks, range.slba, range.nlb as u64) {
            Err(e) => {
                return Err(e);
            },
            Ok(()) => {},
        }
        let at = be.extent(range);
        match be.kind {
            Kind::Regular => Ok(ZeroTask::Zeroing(at)),
            Kind::Block => Ok(ZeroTask::Writing(at)),
        }
    }

    /// What to do next.
    pub fn next(&self) -> (r: ZeroStep)
        ensures
            r == zero_step(*self),
    {
        match self {
            ZeroTask::Zeroing(at) => ZeroStep::Fallocate { mode: FALLOC_FL_ZERO_RANGE, at: *at },
            ZeroTask::Punching(at) => ZeroStep::Fallocate { mode: PUNCH, at: *at },
            ZeroTask::Writing(at) => if at.len == 0 {
                ZeroStep::Finish(Ok(()))
            } else {
                ZeroStep::Write {
                    off: at.off,
                    want: if at.len < ZERO_CHUNK {
                        at.len as u32
                    } else {
                        ZERO_CHUNK as u32
                    },
                }
            },
            ZeroTask::Over => ZeroStep::Finish(Ok(())),
        }
    }

    /// The file system did as asked, or did not: a refused zeroing is tried as
    /// a hole (which reads back zeroes on files), a refused hole is written.
    pub fn allocated(&mut self, ok: bool)
        requires
            old(self).wf(),
            *old(self) is Zeroing || *old(self) is Punching,
        ensures
            final(self).wf(),
            *final(self) == (if ok {
                ZeroTask::Over
            } else {
                match *old(self) {
                    ZeroTask::Zeroing(at) => ZeroTask::Punching(at),
                    ZeroTask::Punching(at) => ZeroTask::Writing(at),
                    t => t,
                }
            }),
    {
        if ok {
            *self = ZeroTask::Over;
            return ;
        }
        match *self {
            ZeroTask::Zeroing(at) => {
                *self = ZeroTask::Punching(at);
            },
            ZeroTask::Punching(at) => {
                *self = ZeroTask::Writing(at);
            },
            _ => {},
        }
    }

    /// `n` bytes of zeroes were written; none at all is an IO error.
    pub fn wrote(&mut self, n: u32) -> (r: Result<(), BackendError>)
        requires
            old(self).wf(),
            *old(self) matches ZeroTask::Writing(at) && n <= at.len,
        ensures
            final(self).wf(),
            if n == 0 {
                r == Err::<(), BackendError>(BackendError::Io(EIO)) && *final(self) == *old(self)
            } else {
                &&& r is Ok
                &&& *old(self) matches ZeroTask::Writing(at) && *final(self) == ZeroTask::Writing(
                    Extent { off: (at.off + n) as u64, len: (at.len - n) as u64 },
                )
            },
    {
        if n == 0 {
            return Err(BackendError::Io(EIO));
        }
        match *self {
            ZeroTask::Writing(at) => {
                *self = ZeroTask::Writing(
                    Extent { off: at.off + n as u64, len: at.len - n as u64 },
                );
            },
            _ => {},
        }
        Ok(())
    }
}

// ---------------------------------------------------------------------------
// What is reached
// ---------------------------------------------------------------------------

/// Whether byte `q` of the store lies in `e`.
pub open spec fn in_extent(e: Extent, q: int) -> bool {
    e.off <= q < e.off + e.len
}

/// Whether byte `q` of the store lies in a block of `range`.
pub open spec fn in_blocks(b: FileBackend, range: LbaRange, q: int) -> bool {
    0 <= q && range.slba <= q / (backend::block_size(b.block_shift) as int) < range.slba + range.nlb
}

/// Whether byte `q` of the store lies in one of `v`.
pub open spec fn in_some(v: Seq<Extent>, q: int) -> bool {
    exists|i: int| 0 <= i < v.len() && in_extent(#[trigger] v[i], q)
}

/// Whether byte `q` of the store lies in a block of one of `ranges`.
pub open spec fn in_some_blocks(b: FileBackend, ranges: Seq<LbaRange>, q: int) -> bool {
    exists|i: int| 0 <= i < ranges.len() && in_blocks(b, #[trigger] ranges[i], q)
}

/// The bytes of a range of blocks are those of its blocks and no others, and end
/// where the store does at the latest.
pub proof fn lemma_extent_bytes(b: FileBackend, range: LbaRange, q: int)
    requires
        b.wf(),
        range.slba + range.nlb <= b.nr_blocks,
    ensures
        in_extent(extent_of(b, range), q) <==> in_blocks(b, range, q),
        extent_of(b, range).off + extent_of(b, range).len <= b.nr_blocks * backend::block_size(
            b.block_shift,
        ),
{
    let p = backend::block_size(b.block_shift) as int;
    let first = range.slba as int;
    let n = range.nlb as int;
    vstd::arithmetic::power2::lemma_pow2_pos(b.block_shift as nat);
    backend::lemma_in_range(b.nr_blocks, range.slba, range.nlb as u64, b.block_shift);
    assert((first + n) * p == first * p + n * p) by (nonlinear_arith);
    assert((first + n) * p <= b.nr_blocks * p) by (nonlinear_arith)
        requires
            first + n <= b.nr_blocks,
            p > 0,
    ;
    assert(first * p >= 0 && n * p >= 0) by (nonlinear_arith)
        requires
            first >= 0,
            n >= 0,
            p > 0,
    ;
    if q >= 0 {
        lemma_block_of(q, first, p);
        lemma_block_of(q, first + n, p);
    }
}

/// A byte lies at or past block `k` exactly where its block does.
proof fn lemma_block_of(q: int, k: int, p: int)
    requires
        p > 0,
    ensures
        k <= q / p <==> k * p <= q,
{
    vstd::arithmetic::div_mod::lemma_fundamental_div_mod(q, p);
    let d = q / p;
    let m = q % p;
    assert(k <= d <==> k * p <= q) by (nonlinear_arith)
        requires
            q == p * d + m,
            0 <= m < p,
    ;
}

/// Deallocating a file punches, range by range, exactly the bytes of the blocks
/// of that range, and all before the end of the device; it stops at the first
/// range that goes beyond it, and only there. A block device has no hole made.
pub proof fn lemma_holes(b: FileBackend, ranges: Seq<LbaRange>, i: int, q: int)
    requires
        b.wf(),
    ensures
        ({
            let v = holes(b, ranges, 0);
            &&& b.kind is Block ==> v.len() == 0
            &&& v.len() <= ranges.len()
            &&& 0 <= i < v.len() ==> {
                &&& ranges[i].slba + ranges[i].nlb <= b.nr_blocks
                &&& in_extent(v[i], q) <==> in_blocks(b, ranges[i], q)
                &&& v[i].off + v[i].len <= b.nr_blocks * backend::block_size(b.block_shift)
            }
            &&& b.kind is Regular && v.len() < ranges.len() ==> ranges[v.len() as int].slba
                + ranges[v.len() as int].nlb > b.nr_blocks
        }),
{
    lemma_holes_from(b, ranges, 0, i);
    let v = holes(b, ranges, 0);
    if 0 <= i < v.len() {
        lemma_extent_bytes(b, ranges[i], q);
    }
}

proof fn lemma_holes_from(b: FileBackend, ranges: Seq<LbaRange>, k: int, i: int)
    requires
        0 <= k <= ranges.len(),
    ensures
        ({
            let v = holes(b, ranges, k);
            &&& k + v.len() <= ranges.len()
            &&& 0 <= i < v.len() ==> v[i] == extent_of(b, ranges[k + i]) && ranges[k + i].slba
                + ranges[k + i].nlb <= b.nr_blocks
            &&& b.kind is Regular && k + v.len() < ranges.len() ==> ranges[k + v.len()].slba
                + ranges[k + v.len()].nlb > b.nr_blocks
        }),
    decreases ranges.len() - k,
{
    if k < ranges.len() && b.kind is Regular {
        lemma_holes_from(b, ranges, k + 1, i - 1);
        let rest = holes(b, ranges, k + 1);
        if ranges[k].slba + ranges[k].nlb <= b.nr_blocks {
            assert(holes(b, ranges, k).len() == 1 + rest.len());
            if 0 < i <= rest.len() {
                assert(holes(b, ranges, k)[i] == rest[i - 1]);
            }
        }
    }
}

/// What a deallocation punches is what was asked for: every byte of a hole lies
/// in a block that was named, no byte elsewhere is touched, and where it is
/// answered with success on a file every byte that was named lies in a hole.
pub proof fn lemma_discard_exact(b: FileBackend, ranges: Seq<LbaRange>, q: int)
    requires
        b.wf(),
    ensures
        in_some(holes(b, ranges, 0), q) ==> in_some_blocks(b, ranges, q) && 0 <= q < b.nr_blocks
            * backend::block_size(b.block_shift),
        b.kind is Regular && all_in_range(b, ranges, 0) ==> (in_some(holes(b, ranges, 0), q)
            <==> in_some_blocks(b, ranges, q)),
        all_in_range(b, ranges, 0) <==> forall|i: int|
            0 <= i < ranges.len() ==> (#[trigger] ranges[i]).slba + ranges[i].nlb <= b.nr_blocks,
{
    let v = holes(b, ranges, 0);
    lemma_all_in_range(b, ranges, 0);
    lemma_holes(b, ranges, 0, q);
    if in_some(v, q) {
        let i = choose|i: int| 0 <= i < v.len() && in_extent(#[trigger] v[i], q);
        lemma_holes(b, ranges, i, q);
        assert(in_blocks(b, ranges[i], q));
    }
    if b.kind is Regular && all_in_range(b, ranges, 0) && in_some_blocks(b, ranges, q) {
        let i = choose|i: int| 0 <= i < ranges.len() && in_blocks(b, #[trigger] ranges[i], q);
        if v.len() < ranges.len() {
            let r = ranges[v.len() as int];
            assert(r.slba + r.nlb <= b.nr_blocks);
        }
        lemma_holes(b, ranges, i, q);
        assert(in_extent(v[i], q));
    }
}

proof fn lemma_all_in_range(b: FileBackend, ranges: Seq<LbaRange>, k: int)
    requires
        0 <= k <= ranges.len(),
    ensures
        all_in_range(b, ranges, k) <==> forall|i: int|
            k <= i < ranges.len() ==> (#[trigger] ranges[i]).slba + ranges[i].nlb <= b.nr_blocks,
    decreases ranges.len() - k,
{
    if k < ranges.len() {
        lemma_all_in_range(b, ranges, k + 1);
    }
}

/// What a write of zeroes still has to zero.
pub open spec fn zero_left(t: ZeroTask) -> Extent {
    match t {
        ZeroTask::Zeroing(e) => e,
        ZeroTask::Punching(e) => e,
        ZeroTask::Writing(e) => e,
        ZeroTask::Over => Extent { off: 0, len: 0 },
    }
}

/// Each step of a write of zeroes goes on at the first byte that is left, does
/// not go past the last one and does something; it ends only when nothing is
/// left. The file system is asked for all of it at once, to zero it or to punch
/// it out at the size the file has.
pub proof fn lemma_zero_steps(t: ZeroTask)
    ensures
        ({
            let left = zero_left(t);
            match zero_step(t) {
                ZeroStep::Fallocate { mode, at } => at == left && (t is Zeroing && mode == 0x10
                    || t is Punching && mode == 0x02 + 0x01),
                ZeroStep::Write { off, want } => t is Writing && off == left.off && 0 < want
                    <= left.len && (want < left.len ==> want == 0x1_0000),
                ZeroStep::Finish(r) => r is Ok && left.len == 0,
            }
        }),
{
}

/// The errors IOs end in: no space, not supported, and otherwise the error
/// number itself, an IO error where there is none. One that could not even be
/// submitted says nothing of the store.
pub proof fn lemma_failures(e: i32)
    ensures
        failure_error(Failure::Complete(Some(28))) is NoSpace,
        failure_error(Failure::Complete(Some(95))) is Unsupported,
        failure_error(Failure::Complete(Some(22))) is Unsupported,
        e != 28 && e != 95 && e != 22 ==> failure_error(Failure::Complete(Some(e)))
            == BackendError::Io(e),
        failure_error(Failure::Submit(Some(e))) == BackendError::Io(e),
        failure_error(Failure::Complete(None)) == BackendError::Io(5),
        failure_error(Failure::Submit(None)) == BackendError::Io(5),
{
}

} // verus!
