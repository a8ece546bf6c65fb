//! One request at a time, as bytes on a stream: how a request is framed, how a
//! transfer goes on after a short one, and what is made of a reply.

use vstd::prelude::*;

use crate::bytes;
use crate::sheepdog::error::CtlError;
use crate::sheepdog::wire;
use crate::sheepdog::wire::{resp_data_length, Reply};

verus! {

/// Bytes asked of one receive while a payload is being read off the wire. Big
/// enough that a megabyte-scale reply (the inode object map, the cluster's VDI
/// state table) is a handful of round trips, small enough to reuse one buffer.
pub const RECV_CHUNK: usize = 65536;

/// Why a transfer stopped before its end.
#[derive(Debug, Clone, Copy, PartialEq, Eq, Structural)]
pub enum Stop {
    /// Nothing could be sent.
    WriteZero,
    /// The peer has hung up.
    UnexpectedEof,
}

/// A transfer under way: short ones are resumed where they ended.
#[derive(Debug, Clone, Copy, PartialEq, Eq, Structural)]
pub struct Progress {
    /// Bytes in all.
    pub len: usize,
    /// Bytes done.
    pub done: usize,
}

impl Progress {
    /// A transfer of `len` bytes.
    pub fn new(len: usize) -> (r: Progress)
        ensures
            r == (Progress { len, done: 0 }),
    {
        Progress { len, done: 0 }
    }

    /// Bytes to ask for next, at most `most`; `None` at the end.
    pub fn want(&self, most: usize) -> (r: Option<usize>)
        requires
            self.done <= self.len,
        ensures
            match r {
                None => self.done == self.len,
                Some(n) => self.done < self.len && n == (if self.len - self.done < most {
                    (self.len - self.done) as usize
                } else {
                    most
                }),
            },
    {
        if self.done >= self.len {
            None
        } else if self.len - self.done < most {
            Some(self.len - self.done)
        } else {
            Some(most)
        }
    }

    /// `n` more bytes went out. None at all ends the connection.
    pub fn sent(&mut self, n: usize) -> (r: Result<(), Stop>)
        requires
            old(self).done + n <= old(self).len,
        ensures
            match r {
                Ok(_) => n > 0 && *final(self) == (Progress {
                    done: (old(self).done + n) as usize,
                    ..*old(self)
                }),
                Err(e) => n == 0 && e == Stop::WriteZero && *final(self) == *old(self),
            },
    {
        if n == 0 {
            return Err(Stop::WriteZero);
        }
        self.done = self.done + n;
        Ok(())
    }

    /// `n` more bytes came in. None at all means that the response was cut in
    /// half.
    pub fn received(&mut self, n: usize) -> (r: Result<(), Stop>)
        requires
            old(self).done + n <= old(self).len,
        ensures
            match r {
                Ok(_) => n > 0 && *final(self) == (Progress {
                    done: (old(self).done + n) as usize,
                    ..*old(self)
                }),
                Err(e) => n == 0 && e == Stop::UnexpectedEof && *final(self) == *old(self),
            },
    {
        if n == 0 {
            return Err(Stop::UnexpectedEof);
        }
        self.done = self.done + n;
        Ok(())
    }
}

/// A request as one buffer: the header and its payload reach the wire in one
/// send, which is also what keeps them contiguous on it.
pub fn request_bytes(hdr: &[u8; 48], write: &[u8]) -> (r: Vec<u8>)
    ensures
        r@ == hdr@ + write@,
{
    let mut out: Vec<u8> = Vec::new();
    for i in 0..48usize
        invariant
            out@ == hdr@.take(i as int),
    {
        out.push(hdr[i]);
        assert(out@ =~= hdr@.take(i + 1));
    }
    assert(out@ =~= hdr@);
    let n: usize = write.len();
    for i in 0..n
        invariant
            n == write@.len(),
            out@ == hdr@ + write@.take(i as int),
    {
        out.push(write[i]);
        assert(out@ =~= hdr@ + write@.take(i + 1));
    }
    assert(write@.take(n as int) =~= write@);
    out
}

/// Bytes of payload that follow a response header, which may be no more than
/// `room`: a longer one is a protocol violation — the server was told how much
/// room there was — and fails the request rather than being half-read.
pub fn reply_len(hdr: &[u8; 48], room: usize) -> (r: Result<usize, CtlError>)
    ensures
        ({
            let len = wire::u32_at(hdr@, 12);
            match r {
                Ok(n) => n == len && len <= room,
                Err(CtlError::PayloadTooLong { len: l, room: m }) => l == len && m == room && len
                    > room,
                Err(_) => false,
            }
        }),
{
    let len: u32 = resp_data_length(hdr);
    if len as usize > room {
        Err(CtlError::PayloadTooLong { len: len as usize, room })
    } else {
        Ok(len as usize)
    }
}

/// What becomes of the payload that follows a response header.
#[derive(Debug, Clone, Copy, PartialEq, Eq, Structural)]
pub enum Intake {
    /// So many bytes go into the reply.
    Keep(usize),
    /// So many bytes are read off the wire and dropped.
    Drain(usize),
}

/// What to do with the payload of a response to a request that has `room` for
/// one. The answer to a request without any is in the header: whatever follows
/// it is dropped, which leaves the connection where the next request expects
/// it.
pub fn intake(hdr: &[u8; 48], room: usize) -> (r: Result<Intake, CtlError>)
    ensures
        ({
            let len = wire::u32_at(hdr@, 12);
            match r {
                Ok(Intake::Drain(n)) => room == 0 && n == len,
                Ok(Intake::Keep(n)) => room > 0 && n == len && len <= room,
                Err(CtlError::PayloadTooLong { len: l, room: m }) => l == len && m == room && 0
                    < room < len,
                Err(_) => false,
            }
        }),
{
    if room == 0 {
        return Ok(Intake::Drain(resp_data_length(hdr) as usize));
    }
    match reply_len(hdr, room) {
        Ok(n) => Ok(Intake::Keep(n)),
        Err(e) => Err(e),
    }
}

/// The reply that `payload` makes: `room` bytes, zero past what was sent.
pub fn make_reply(hdr: [u8; 48], payload: Vec<u8>, room: usize) -> (r: Reply)
    requires
        payload@.len() <= room,
    ensures
        r.hdr == hdr,
        r.len == payload@.len(),
        r.data@ == payload@ + bytes::zeroes((room - payload@.len()) as nat),
{
    let len: usize = payload.len();
    let mut data = payload;
    data.resize(room, 0u8);
    assert(data@ =~= payload@ + bytes::zeroes((room - payload@.len()) as nat));
    Reply { hdr, data, len }
}

} // verus!
