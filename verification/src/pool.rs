//! Command data buffers viewed as one or more physical segments.
//!
//! A command's payload does not have to be one contiguous allocation.
//! Consumers — backend IO, the gather-send staging, digest passes — go through
//! the segment API ([`SlotData::segs`], [`SlotData::write_at`],
//! [`SlotData::for_each_seg`], [`SlotData::as_slice`]) and never name the
//! backing.

use vstd::prelude::*;
use vstd::slice::slice_subrange;

use crate::buf;
use crate::buf::AlignedBuf;
use crate::bytes;
use crate::bytes::copy_bytes;

verus! {

/// Max physical segments a single command buffer can span: MDTS (128 KiB)
/// divided by the 4 KiB page granule.
pub const MAX_SEGS: usize = 32;

/// One physically-contiguous run of a command's data buffer.
#[derive(Clone, Copy, Debug, PartialEq, Eq, Structural)]
pub struct Seg {
    /// Start of the run in the backing.
    pub off: usize,
    /// Length of the run in bytes.
    pub len: usize,
}

/// A command's data buffer, as a (possibly scattered) segment list; the view
/// is its bytes in logical order.
#[derive(Debug)]
pub struct SlotData {
    inner: AlignedBuf,
    segs: Vec<Seg>,
}

/// Whether `segs` are one after the other from `at` on, up to `end`.
pub open spec fn tile(segs: Seq<Seg>, at: int, end: int) -> bool
    decreases segs.len(),
{
    if segs.len() == 0 {
        at == end
    } else {
        segs[0].off == at && 0 < segs[0].len && tile(segs.drop_first(), at + segs[0].len, end)
    }
}

/// The range of `len` bytes `off` bytes into `segs`, cut at the segments'
/// ends.
pub open spec fn pieces(data: Seq<u8>, segs: Seq<Seg>, off: int, len: int) -> Seq<Seq<u8>>
    decreases segs.len(),
{
    if segs.len() == 0 || len <= 0 {
        seq![]
    } else if off >= segs[0].len {
        pieces(data, segs.drop_first(), off - segs[0].len, len)
    } else {
        let take = if segs[0].len - off < len {
            segs[0].len - off
        } else {
            len
        };
        seq![data.subrange(segs[0].off + off, segs[0].off + off + take)] + pieces(
            data,
            segs.drop_first(),
            0,
            len - take,
        )
    }
}

/// The pieces of a range are the range.
pub proof fn lemma_pieces(data: Seq<u8>, segs: Seq<Seg>, at: int, off: int, len: int)
    requires
        0 <= at,
        0 <= off,
        0 <= len,
        tile(segs, at, data.len() as int),
        at + off + len <= data.len(),
    ensures
        pieces(data, segs, off, len).flatten() == data.subrange(at + off, at + off + len),
    decreases segs.len(),
{
    let r = pieces(data, segs, off, len);
    if segs.len() == 0 || len == 0 {
        assert(r.flatten() =~= data.subrange(at + off, at + off + len));
    } else if off >= segs[0].len {
        lemma_pieces(data, segs.drop_first(), at + segs[0].len, off - segs[0].len, len);
    } else {
        let take = if segs[0].len - off < len {
            segs[0].len - off
        } else {
            len
        };
        let rest = pieces(data, segs.drop_first(), 0, len - take);
        if take == len {
            assert(rest =~= seq![]);
            assert(rest.flatten() =~= seq![]);
        } else {
            lemma_pieces(data, segs.drop_first(), at + segs[0].len, 0, len - take);
        }
        assert(r.drop_first() =~= rest);
        assert(r.flatten() =~= data.subrange(at + off, at + off + len));
    }
}

impl View for SlotData {
    type V = Seq<u8>;

    closed spec fn view(&self) -> Seq<u8> {
        self.inner@
    }
}

impl SlotData {
    /// The physical segments.
    pub closed spec fn runs(&self) -> Seq<Seg> {
        self.segs@
    }

    /// The backing allocation is in order.
    pub closed spec fn backed(&self) -> bool {
        self.inner.wf()
    }

    /// The segments cut the buffer up, in order.
    pub open spec fn wf(&self) -> bool {
        &&& self.backed()
        &&& tile(self.runs(), 0, self@.len() as int)
        &&& self.runs().len() <= MAX_SEGS
    }

    /// A single owned buffer of `len` bytes (rounded up to a page).
    pub fn owned(len: usize) -> (r: SlotData)
        requires
            buf::granules(len as nat) <= isize::MAX,
        ensures
            r.wf(),
            r@ == bytes::zeroes(buf::granules(len as nat)),
            r.runs() == seq![(Seg { off: 0, len: buf::granules(len as nat) as usize })],
    {
        let inner = AlignedBuf::zeroed(len);
        let n: usize = inner.len();
        let mut segs: Vec<Seg> = Vec::new();
        segs.push(Seg { off: 0, len: n });
        proof {
            assert(segs@.drop_first() =~= seq![]);
            assert(tile(segs@.drop_first(), n as int, n as int));
            assert(segs@ =~= seq![Seg { off: 0, len: n }]);
        }
        SlotData { inner, segs }
    }

    /// Logical capacity in bytes (sum of segment lengths).
    pub fn len(&self) -> (r: usize)
        requires
            self.backed(),
        ensures
            r == self@.len(),
    {
        self.inner.len()
    }

    /// No bytes at all.
    pub fn is_empty(&self) -> (r: bool)
        requires
            self.backed(),
        ensures
            r == (self@.len() == 0),
    {
        self.inner.len() == 0
    }

    /// True when the buffer is one contiguous run.
    pub fn is_contiguous(&self) -> (r: bool)
        ensures
            r == (self.runs().len() == 1),
    {
        self.segs.len() == 1
    }

    /// The physical segments backing this buffer (1 entry when contiguous).
    pub fn segs(&self) -> (r: &[Seg])
        ensures
            r@ == self.runs(),
    {
        self.segs.as_slice()
    }

    /// Contiguous read view; not for a scattered buffer.
    pub fn as_slice(&self) -> (r: &[u8])
        requires
            self.backed(),
            self.runs().len() == 1,
        ensures
            r@ == self@,
    {
        self.inner.as_slice()
    }

    /// Contiguous write view; not for a scattered buffer.
    pub fn as_mut_slice(&mut self) -> (r: &mut [u8])
        requires
            old(self).backed(),
            old(self).runs().len() == 1,
        ensures
            final(self).backed(),
            r@ == old(self)@,
            final(self)@ == final(r)@,
            final(self).runs() == old(self).runs(),
    {
        self.inner.as_mut_slice()
    }

    /// Copy `src` into the buffer at logical offset `off`, crossing segment
    /// boundaries as needed.
    pub fn write_at(&mut self, off: usize, src: &[u8])
        requires
            old(self).wf(),
            off + src@.len() <= old(self)@.len(),
        ensures
            final(self)@ == bytes::overwritten(old(self)@, off as int, src@),
            final(self).runs() == old(self).runs(),
            final(self).wf(),
    {
        let n: usize = src.len();
        let count: usize = self.segs.len();
        let total: usize = self.inner.len();
        let mut skip: usize = off;
        let mut done: usize = 0;
        let mut i: usize = 0;
        let ghost mut at: int = 0;
        let ghost before = self@;
        assert(bytes::overwritten(before, off as int, src@.take(0)) =~= before);
        assert(self.segs@.skip(0) =~= self.segs@);
        while i < count && done < n
            invariant
                self.backed(),
                i <= count == self.segs@.len(),
                n == src@.len(),
                done <= n,
                self.segs@ == old(self).segs@,
                total == self@.len() == before.len(),
                0 <= at,
                tile(self.segs@.skip(i as int), at, total as int),
                off + n <= total,
                done < n ==> at + skip == off + done,
                self@ == bytes::overwritten(before, off as int, src@.take(done as int)),
            decreases count - i,
        {
            let ghost rest = self.segs@.skip(i as int);
            let seg: Seg = self.segs[i];
            proof {
                assert(rest[0] == seg);
                assert(rest.drop_first() =~= self.segs@.skip(i + 1));
                lemma_tile_end(rest.drop_first(), at + seg.len, total as int);
            }
            if skip >= seg.len {
                skip = skip - seg.len;
            } else {
                let room: usize = seg.len - skip;
                let take: usize = if room < n - done {
                    room
                } else {
                    n - done
                };
                copy_bytes(self.inner.as_mut_slice(), seg.off + skip, src, done, take);
                assert(self@ =~= bytes::overwritten(before, off as int, src@.take(done + take)));
                done = done + take;
                skip = 0;
            }
            proof {
                at = at + seg.len;
            }
            i = i + 1;
        }
        assert(self.segs@.skip(count as int) =~= seq![]);
        assert(src@.take(n as int) =~= src@);
    }

    /// Each contiguous sub-slice of the logical range `[off, off+len)`, in
    /// order.
    pub fn for_each_seg(&self, off: usize, len: usize) -> (r: Vec<&[u8]>)
        requires
            self.wf(),
            off + len <= self@.len(),
        ensures
            r@.map_values(|c: &[u8]| c@) == pieces(self@, self.runs(), off as int, len as int),
            r@.map_values(|c: &[u8]| c@).flatten() == self@.subrange(off as int, off + len),
    {
        let count: usize = self.segs.len();
        let total: usize = self.inner.len();
        let mut skip: usize = off;
        let mut left: usize = len;
        let mut i: usize = 0;
        let mut out: Vec<&[u8]> = Vec::new();
        let ghost mut at: int = 0;
        let ghost view = |c: &[u8]| c@;
        let ghost want = pieces(self@, self.segs@, off as int, len as int);
        assert(self.segs@.skip(0) =~= self.segs@);
        assert(out@.map_values(view) + want =~= want);
        while i < count && left > 0
            invariant
                self.backed(),
                i <= count == self.segs@.len(),
                total == self@.len(),
                view == (|c: &[u8]| c@),
                0 <= at,
                tile(self.segs@.skip(i as int), at, total as int),
                left > 0 ==> at + skip + left == off + len,
                off + len <= total,
                out@.map_values(view) + pieces(
                    self@,
                    self.segs@.skip(i as int),
                    skip as int,
                    left as int,
                ) == want,
            decreases count - i,
        {
            let ghost rest = self.segs@.skip(i as int);
            let seg: Seg = self.segs[i];
            proof {
                assert(rest[0] == seg);
                assert(rest.drop_first() =~= self.segs@.skip(i + 1));
                lemma_tile_end(rest.drop_first(), at + seg.len, total as int);
            }
            if skip >= seg.len {
                skip = skip - seg.len;
            } else {
                let room: usize = seg.len - skip;
                let take: usize = if room < left {
                    room
                } else {
                    left
                };
                let ghost before = out@.map_values(view);
                let ghost old_skip = skip;
                let ghost old_left = left;
                let chunk = slice_subrange(
                    self.inner.as_slice(),
                    seg.off + skip,
                    seg.off + skip + take,
                );
                out.push(chunk);
                left = left - take;
                skip = 0;
                proof {
                    assert(out@.map_values(view) =~= before.push(chunk@));
                    let tail = pieces(self@, self.segs@.skip(i + 1), 0, left as int);
                    assert(pieces(self@, rest, old_skip as int, old_left as int) =~= seq![chunk@]
                        + tail);
                    assert(before.push(chunk@) + tail =~= before + (seq![chunk@] + tail));
                }
            }
            proof {
                at = at + seg.len;
            }
            i = i + 1;
        }
        proof {
            if left > 0 {
                assert(self.segs@.skip(count as int) =~= seq![]);
            }
            assert(out@.map_values(view) =~= want);
            lemma_pieces(self@, self.segs@, 0, off as int, len as int);
        }
        out
    }
}

proof fn lemma_tile_end(segs: Seq<Seg>, at: int, end: int)
    requires
        tile(segs, at, end),
    ensures
        at <= end,
    decreases segs.len(),
{
    if segs.len() > 0 {
        lemma_tile_end(segs.drop_first(), at + segs[0].len, end);
    }
}

} // verus!
