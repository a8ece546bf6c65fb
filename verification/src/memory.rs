//! RAM-backed backend for tests and protocol bring-up.
//!
//! The store is cut into fixed 2 MiB chunks, allocated lazily on first write:
//! reads of untouched chunks return zeroes.

use vstd::prelude::*;

use crate::backend;
use crate::backend::{blocks_in, bytes_in, Backend, BackendError, LbaRange};
use crate::bytes;
use crate::bytes::{clear_bytes, copy_bytes, zero_bytes};

verus! {

/// Bytes in a chunk: 2 MiB.
pub const CHUNK_SIZE: usize = 0x20_0000;

/// See module docs. The view is every byte the chunks hold, in order.
#[derive(Debug)]
pub struct MemoryBackend {
    block_shift: u8,
    nr_blocks: u64,
    chunks: Vec<Option<Vec<u8>>>,
    /// Test-only artificial per-write completion delay (microseconds). A real
    /// SSD makes writes take time, so the data buffer feeding the write stays
    /// referenced for the op's duration; `0` (default) keeps writes
    /// synchronous.
    write_delay_us: u64,
}

/// Byte `p` of the store: zero in a chunk nobody has written.
spec fn byte_at(chunks: Seq<Option<Vec<u8>>>, p: int) -> u8 {
    match chunks[p / 0x20_0000] {
        Some(d) => d@[p % 0x20_0000],
        None => 0u8,
    }
}

spec fn stored(chunks: Seq<Option<Vec<u8>>>) -> Seq<u8> {
    Seq::new(chunks.len() * 0x20_0000, |p: int| byte_at(chunks, p))
}

impl View for MemoryBackend {
    type V = Seq<u8>;

    closed spec fn view(&self) -> Seq<u8> {
        stored(self.chunks@)
    }
}

spec fn whole_chunks(chunks: Seq<Option<Vec<u8>>>) -> bool {
    forall|i: int|
        0 <= i < chunks.len() ==> ((#[trigger] chunks[i]) matches Some(d) ==> d@.len()
            == 0x20_0000)
}

impl MemoryBackend {
    /// A zero-filled store of `size_bytes` rounded down to whole blocks.
    pub fn new(size_bytes: u64, block_shift: u8) -> (r: Self)
        requires
            block_shift < 64,
            size_bytes / 0x20_0000 < usize::MAX,
        ensures
            r.valid(),
            r.shift() == block_shift,
            r.blocks() as nat == size_bytes as nat / backend::block_size(block_shift),
            r.write_delay_us() == 0,
            forall|p: int| 0 <= p < r@.len() ==> #[trigger] r@[p] == 0,
    {
        let nr_blocks: u64 = blocks_in(size_bytes, block_shift);
        let held: u64 = bytes_in(nr_blocks, block_shift);
        let extra: u64 = if held % 0x20_0000 == 0 {
            0
        } else {
            1
        };
        let nr_chunks: usize = (held / 0x20_0000 + extra) as usize;
        let mut chunks: Vec<Option<Vec<u8>>> = Vec::new();
        for i in 0..nr_chunks
            invariant
                chunks@.len() == i,
                forall|j: int| 0 <= j < i ==> #[trigger] chunks@[j] is None,
        {
            chunks.push(None);
        }
        MemoryBackend { block_shift, nr_blocks, chunks, write_delay_us: 0 }
    }

    /// The artificial per-write delay in microseconds.
    pub closed spec fn write_delay_us(&self) -> u64 {
        self.write_delay_us
    }

    /// Set the test-only artificial per-write delay in microseconds. Used to
    /// emulate a slow real disk so recv-side buffers stay referenced across
    /// the write, exposing hold-across-write bugs the instant default cannot.
    pub fn set_write_delay_us(&mut self, us: u64)
        ensures
            final(self).write_delay_us() == us,
            final(self)@ == old(self)@,
            final(self).shift() == old(self).shift(),
            final(self).blocks() == old(self).blocks(),
            final(self).valid() == old(self).valid(),
    {
        self.write_delay_us = us;
    }

    /// How long a write is to be held up before it is carried out
    /// (microseconds; 0 = not at all).
    pub fn write_delay(&self) -> (r: u64)
        ensures
            r == self.write_delay_us(),
    {
        self.write_delay_us
    }

    /// Every block has its bytes in the store, which ends within one chunk of
    /// the last of them.
    pub proof fn lemma_holds_blocks(&self)
        requires
            self.valid(),
        ensures
            self.blocks() * backend::block_size(self.shift()) <= u64::MAX,
            self.blocks() * backend::block_size(self.shift()) <= self@.len(),
            self@.len() < self.blocks() * backend::block_size(self.shift()) + 0x20_0000,
    {
    }

    /// The chunk that byte `pos` of the store is in, where in it, and how many
    /// of `remaining` bytes it holds from there on.
    fn chunk_run(pos: u64, remaining: usize) -> (r: (usize, usize, usize))
        requires
            remaining > 0,
            pos / 0x20_0000 <= usize::MAX,
        ensures
            r.0 == pos / 0x20_0000,
            r.1 == pos % 0x20_0000,
            0 < r.2 <= remaining,
            r.1 + r.2 <= 0x20_0000,
    {
        let chunk: usize = (pos / 0x20_0000) as usize;
        let at: usize = (pos % 0x20_0000) as usize;
        let room: usize = CHUNK_SIZE - at;
        let take: usize = if remaining < room {
            remaining
        } else {
            room
        };
        (chunk, at, take)
    }
}

/// Bytes written inside one chunk show in the store at the chunk's place.
proof fn lemma_chunk_written(
    before: Seq<Option<Vec<u8>>>,
    after: Seq<Option<Vec<u8>>>,
    k: int,
    at: int,
    b: Seq<u8>,
)
    requires
        whole_chunks(before),
        whole_chunks(after),
        0 <= k < before.len(),
        after.len() == before.len(),
        forall|i: int| 0 <= i < before.len() && i != k ==> after[i] == before[i],
        0 <= at,
        at + b.len() <= 0x20_0000,
        forall|p: int|
            p / 0x20_0000 == k ==> #[trigger] byte_at(after, p) == (if k * 0x20_0000 + at <= p < k
                * 0x20_0000 + at + b.len() {
                b[p - (k * 0x20_0000 + at)]
            } else {
                byte_at(before, p)
            }),
    ensures
        stored(after) == bytes::overwritten(stored(before), k * 0x20_0000 + at, b),
{
    let want = bytes::overwritten(stored(before), k * 0x20_0000 + at, b);
    assert forall|p: int| 0 <= p < stored(before).len() implies stored(after)[p] == want[p] by {
        let c = p / 0x20_0000;
        if c == k {
            assert(stored(after)[p] == byte_at(after, p));
        } else {
            assert(after[c] == before[c]);
        }
    }
    assert(stored(after) =~= want);
}

impl Backend for MemoryBackend {
    closed spec fn shift(&self) -> u8 {
        self.block_shift
    }

    closed spec fn blocks(&self) -> u64 {
        self.nr_blocks
    }

    closed spec fn valid(&self) -> bool {
        &&& self.block_shift < 64
        &&& self.nr_blocks * backend::block_size(self.block_shift) <= u64::MAX
        &&& self.nr_blocks * backend::block_size(self.block_shift) <= self.chunks@.len() * 0x20_0000
        &&& self.chunks@.len() * 0x20_0000 < self.nr_blocks * backend::block_size(self.block_shift)
            + 0x20_0000
        &&& whole_chunks(self.chunks@)
    }

    /// Whole blocks are always taken; a transfer with a part of a block has
    /// to end inside the store.
    open spec fn takes(&self, slba: u64, len: nat) -> bool {
        let nlb = len / backend::block_size(self.shift());
        &&& len <= u64::MAX
        &&& backend::in_range(self.blocks(), slba, nlb as u64) ==> slba * backend::block_size(
            self.shift(),
        ) + len <= self@.len() && slba * backend::block_size(self.shift()) + len <= u64::MAX
    }

    fn block_shift(&self) -> (r: u8) {
        self.block_shift
    }

    fn nr_blocks(&self) -> (r: u64) {
        self.nr_blocks
    }

    fn read(&self, slba: u64, buf: &mut [u8]) -> (r: Result<(), BackendError>)
        ensures
            r == backend::range_answer(
                self.blocks(),
                slba,
                (old(buf)@.len() / backend::block_size(self.shift())) as u64,
            ),
            final(buf)@ == (if r is Ok {
                self@.subrange(
                    (slba * backend::block_size(self.shift())) as int,
                    slba * backend::block_size(self.shift()) + old(buf)@.len(),
                )
            } else {
                old(buf)@
            }),
    {
        let n: usize = buf.len();
        let nlb: u64 = blocks_in(n as u64, self.block_shift);
        match self.check_range(slba, nlb) {
            Err(e) => {
                return Err(e);
            },
            Ok(()) => {},
        }
        proof {
            backend::lemma_in_range(self.nr_blocks, slba, nlb, self.block_shift);
        }
        let offset: u64 = bytes_in(slba, self.block_shift);
        let mut pos: u64 = offset;
        let mut done: usize = 0;
        let count: usize = self.chunks.len();
        let ghost all = self@;
        while done < n
            invariant
                all == stored(self.chunks@),
                count == self.chunks@.len(),
                whole_chunks(self.chunks@),
                done <= n == buf@.len(),
                pos == offset + done,
                offset + n <= all.len(),
                offset + n <= u64::MAX,
                forall|i: int| 0 <= i < done ==> #[trigger] buf@[i] == all[offset + i],
            decreases n - done,
        {
            let (chunk, at, take): (usize, usize, usize) = Self::chunk_run(pos, n - done);
            let ghost before = buf@;
            match &self.chunks[chunk] {
                Some(data) => {
                    copy_bytes(buf, done, data.as_slice(), at, take);
                    proof {
                        assert forall|i: int| 0 <= i < done + take implies #[trigger] buf@[i]
                            == all[offset + i] by {
                            if i < done {
                                assert(before[i] == all[offset + i]);
                            } else {
                                let p = offset + i;
                                assert(p / 0x20_0000 == chunk && p % 0x20_0000 == at + (i - done));
                            }
                        }
                    }
                },
                None => {
                    clear_bytes(buf, done, take);
                    proof {
                        assert forall|i: int| 0 <= i < done + take implies #[trigger] buf@[i]
                            == all[offset + i] by {
                            if i < done {
                                assert(before[i] == all[offset + i]);
                            } else {
                                let p = offset + i;
                                assert(p / 0x20_0000 == chunk);
                            }
                        }
                    }
                },
            }
            pos = pos + take as u64;
            done = done + take;
        }
        assert(buf@ =~= all.subrange(offset as int, offset + n));
        Ok(())
    }

    fn write(&mut self, slba: u64, buf: &[u8]) -> (r: Result<(), BackendError>)
        ensures
            r == backend::range_answer(
                old(self).blocks(),
                slba,
                (buf@.len() / backend::block_size(old(self).shift())) as u64,
            ),
            final(self)@ == (if r is Ok {
                bytes::overwritten(
                    old(self)@,
                    (slba * backend::block_size(old(self).shift())) as int,
                    buf@,
                )
            } else {
                old(self)@
            }),
            final(self).write_delay_us() == old(self).write_delay_us(),
    {
        let n: usize = buf.len();
        let nlb: u64 = blocks_in(n as u64, self.block_shift);
        match self.check_range(slba, nlb) {
            Err(e) => {
                return Err(e);
            },
            Ok(()) => {},
        }
        proof {
            backend::lemma_in_range(self.nr_blocks, slba, nlb, self.block_shift);
        }
        let offset: u64 = bytes_in(slba, self.block_shift);
        let mut pos: u64 = offset;
        let mut done: usize = 0;
        let count: usize = self.chunks.len();
        let ghost all = self@;
        assert(bytes::overwritten(all, offset as int, buf@.take(0)) =~= all);
        while done < n
            invariant
                whole_chunks(self.chunks@),
                done <= n == buf@.len(),
                pos == offset + done,
                all == stored(old(self).chunks@),
                count == self.chunks@.len() == old(self).chunks@.len(),
                self.block_shift == old(self).block_shift,
                self.nr_blocks == old(self).nr_blocks,
                self.write_delay_us == old(self).write_delay_us,
                offset + n <= all.len(),
                offset + n <= u64::MAX,
                stored(self.chunks@) == bytes::overwritten(
                    all,
                    offset as int,
                    buf@.take(done as int),
                ),
            decreases n - done,
        {
            let (chunk, at, take): (usize, usize, usize) = Self::chunk_run(pos, n - done);
            let ghost before = self.chunks@;
            let mut data: Vec<u8> = match self.chunks[chunk].take() {
                Some(d) => d,
                None => zero_bytes(CHUNK_SIZE),
            };
            copy_bytes(data.as_mut_slice(), at, buf, done, take);
            self.chunks[chunk] = Some(data);
            proof {
                let b = buf@.subrange(done as int, done + take);
                let k = chunk as int;
                assert forall|p: int| p / 0x20_0000 == k implies #[trigger] byte_at(self.chunks@, p)
                    == (if k * 0x20_0000 + at <= p < k * 0x20_0000 + at + b.len() {
                    b[p - (k * 0x20_0000 + at)]
                } else {
                    byte_at(before, p)
                }) by {
                    assert(p == k * 0x20_0000 + p % 0x20_0000);
                }
                lemma_chunk_written(before, self.chunks@, k, at as int, b);
                assert(bytes::overwritten(
                    bytes::overwritten(all, offset as int, buf@.take(done as int)),
                    pos as int,
                    b,
                ) =~= bytes::overwritten(all, offset as int, buf@.take(done + take)));
            }
            pos = pos + take as u64;
            done = done + take;
        }
        assert(buf@.take(n as int) =~= buf@);
        Ok(())
    }

    fn flush(&mut self) -> (r: Result<(), BackendError>)
        ensures
            *final(self) == *old(self),
            r is Ok,
    {
        Ok(())
    }

    fn write_zeroes(&mut self, range: LbaRange) -> (r: Result<(), BackendError>)
        ensures
            r == (if range.nlb * backend::block_size(old(self).shift()) <= usize::MAX {
                backend::range_answer(old(self).blocks(), range.slba, range.nlb as u64)
            } else {
                Err(BackendError::OutOfRange)
            }),
            final(self)@ == (if r is Ok {
                bytes::overwritten(
                    old(self)@,
                    (range.slba * backend::block_size(old(self).shift())) as int,
                    bytes::zeroes(
                        (range.nlb * backend::block_size(old(self).shift())) as nat,
                    ),
                )
            } else {
                old(self)@
            }),
            final(self).write_delay_us() == old(self).write_delay_us(),
    {
        match self.check_range(range.slba, range.nlb as u64) {
            Err(e) => {
                return Err(e);
            },
            Ok(()) => {},
        }
        proof {
            backend::lemma_in_range(
                self.nr_blocks,
                range.slba,
                range.nlb as u64,
                self.block_shift,
            );
        }
        let offset: u64 = bytes_in(range.slba, self.block_shift);
        let len: u64 = bytes_in(range.nlb as u64, self.block_shift);
        if len > usize::MAX as u64 {
            return Err(BackendError::OutOfRange);
        }
        let n: usize = len as usize;
        let mut pos: u64 = offset;
        let mut done: usize = 0;
        let count: usize = self.chunks.len();
        let ghost all = self@;
        assert(bytes::overwritten(all, offset as int, bytes::zeroes(0)) =~= all);
        while done < n
            invariant
                whole_chunks(self.chunks@),
                done <= n,
                pos == offset + done,
                all == stored(old(self).chunks@),
                count == self.chunks@.len() == old(self).chunks@.len(),
                self.block_shift == old(self).block_shift,
                self.nr_blocks == old(self).nr_blocks,
                self.write_delay_us == old(self).write_delay_us,
                offset + n <= all.len(),
                offset + n <= u64::MAX,
                stored(self.chunks@) == bytes::overwritten(
                    all,
                    offset as int,
                    bytes::zeroes(done as nat),
                ),
            decreases n - done,
        {
            let (chunk, at, take): (usize, usize, usize) = Self::chunk_run(pos, n - done);
            let ghost before = self.chunks@;
            match self.chunks[chunk].take() {
                Some(d) => {
                    let mut data: Vec<u8> = d;
                    clear_bytes(data.as_mut_slice(), at, take);
                    self.chunks[chunk] = Some(data);
                },
                None => {},
            }
            proof {
                let b = bytes::zeroes(take as nat);
                let k = chunk as int;
                assert forall|p: int| p / 0x20_0000 == k implies #[trigger] byte_at(self.chunks@, p)
                    == (if k * 0x20_0000 + at <= p < k * 0x20_0000 + at + b.len() {
                    b[p - (k * 0x20_0000 + at)]
                } else {
                    byte_at(before, p)
                }) by {
                    assert(p == k * 0x20_0000 + p % 0x20_0000);
                }
                lemma_chunk_written(before, self.chunks@, k, at as int, b);
                assert(bytes::overwritten(
                    bytes::overwritten(all, offset as int, bytes::zeroes(done as nat)),
                    pos as int,
                    b,
                ) =~= bytes::overwritten(all, offset as int, bytes::zeroes((done + take) as nat)));
            }
            pos = pos + take as u64;
            done = done + take;
        }
        Ok(())
    }
}

/// What was written at `slba` is what a read of those blocks gives back, and a
/// read of other blocks gives what it gave before.
pub proof fn lemma_read_back(
    before: MemoryBackend,
    after: MemoryBackend,
    slba: u64,
    b: Seq<u8>,
    at: u64,
    n: nat,
)
    requires
        before.takes(slba, b.len()),
        backend::in_range(
            before.blocks(),
            slba,
            (b.len() / backend::block_size(before.shift())) as u64,
        ),
        after@ == bytes::overwritten(
            before@,
            (slba * backend::block_size(before.shift())) as int,
            b,
        ),
        before.takes(at, n),
        backend::in_range(before.blocks(), at, (n / backend::block_size(before.shift())) as u64),
    ensures
        ({
            let wrote = slba * backend::block_size(before.shift());
            let from = at * backend::block_size(before.shift());
            &&& at == slba && n == b.len() ==> after@.subrange(from as int, from + n) == b
            &&& from + n <= wrote || wrote + b.len() <= from ==> after@.subrange(
                from as int,
                from + n,
            ) == before@.subrange(from as int, from + n)
        }),
{
    let bs = backend::block_size(before.shift());
    let wrote = slba * bs;
    let from = at * bs;
    assert(0 <= wrote) by (nonlinear_arith)
        requires
            wrote == slba * bs,
    ;
    assert(0 <= from) by (nonlinear_arith)
        requires
            from == at * bs,
    ;
    if at == slba && n == b.len() {
        assert(after@.subrange(from as int, from + n) =~= b);
    }
    if from + n <= wrote || wrote + b.len() <= from {
        assert(after@.subrange(from as int, from + n) =~= before@.subrange(
            from as int,
            from + n,
        ));
    }
}

} // verus!
