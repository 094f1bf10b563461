//! Byte streams with short reads, and one that lives in memory.

use crate::error::{Error, IoKind};
use vstd::math::min;
use vstd::prelude::*;

verus! {

/// All that a stream will ever yield: its bytes in order, then its ending.
pub ghost struct Supply {
    pub bytes: Seq<u8>,
    pub ending: Option<Error>,
}

impl Supply {
    /// The supply after its first `n` bytes were taken, or all of them where
    /// it holds fewer.
    pub open spec fn advance(self, n: int) -> Supply {
        Supply {
            bytes: if n <= self.bytes.len() {
                self.bytes.skip(n)
            } else {
                Seq::empty()
            },
            ending: self.ending,
        }
    }

    /// The supply seen through a bound of `n` bytes: where the bound falls
    /// within the bytes, it is the end of the stream.
    pub open spec fn narrow(self, n: int) -> Supply {
        if n <= self.bytes.len() {
            Supply { bytes: self.bytes.take(n), ending: None }
        } else {
            self
        }
    }

    /// The supply with `front` put before it.
    pub open spec fn after(self, front: Seq<u8>) -> Supply {
        Supply { bytes: front + self.bytes, ending: self.ending }
    }
}

/// Taking `a` bytes and then `b` is taking `a + b`.
pub proof fn lemma_advance_twice(supply: Supply, a: int, b: int)
    requires
        0 <= a,
        0 <= b,
    ensures
        supply.advance(a).advance(b) == supply.advance(a + b),
{
    assert(supply.advance(a).advance(b).bytes =~= supply.advance(a + b).bytes);
}

/// The supply of a stream as it stands.
pub open spec fn supply_of<R: ByteStream>(stream: &R) -> Supply {
    Supply { bytes: stream.remaining(), ending: stream.ending() }
}

/// The error that a stream with this ending reports when a unit that has
/// begun cannot be completed.
pub open spec fn eof_error(ending: Option<Error>) -> Error {
    match ending {
        Some(e) => e,
        None => Error::IoError(IoKind::UnexpectedEof),
    }
}

/// A one-way source of bytes.
///
/// A stream is modelled by the bytes it has yet to deliver and by the way it
/// ends once they are gone. A read may hand out fewer bytes than the buffer
/// holds, but it never skips, repeats or reorders any.
pub trait ByteStream {
    /// The states in which the stream may be read.
    spec fn inv(&self) -> bool;

    /// The bytes that the stream has yet to deliver, in order.
    spec fn remaining(&self) -> Seq<u8>;

    /// What follows the last byte: `None` for end of stream, or the failure
    /// that every later read reports.
    spec fn ending(&self) -> Option<Error>;

    /// Whether `later` is this stream after reads and nothing else: what
    /// reading does not touch is the same in both.
    spec fn leads_to(&self, later: &Self) -> bool;

    /// No read at all leads from a stream to itself.
    proof fn lemma_leads_to_itself(&self)
        ensures
            self.leads_to(self),
    ;

    /// Reads that follow reads are reads.
    proof fn lemma_leads_on(&self, mid: &Self, later: &Self)
        requires
            self.leads_to(mid),
            mid.leads_to(later),
        ensures
            self.leads_to(later),
    ;

    /// How many bytes a read with room for `room` hands out once `ahead`
    /// bytes have been read from the stream as it stands.
    spec fn grant(&self, ahead: int, room: int) -> int;

    /// What a stream hands out at a place in it does not depend on the reads
    /// that led there.
    proof fn lemma_grant_later(&self, later: &Self, ahead: int, room: int)
        requires
            self.inv(),
            later.inv(),
            self.leads_to(later),
            0 <= ahead,
        ensures
            later.remaining().len() <= self.remaining().len(),
            later.grant(ahead, room) == self.grant(
                ahead + self.remaining().len() - later.remaining().len(),
                room,
            ),
    ;

    /// Moves bytes from the front of the stream to the front of `buf` and
    /// returns their number, which is `grant(0, ..)` of the room in `buf`.
    /// With room in `buf`, `Ok(0)` means end of stream. A read fails exactly
    /// when nothing remains and the stream ends in a failure.
    fn read(&mut self, buf: &mut [u8]) -> (r: Result<usize, Error>)
        requires
            old(self).inv(),
        ensures
            final(self).inv(),
            old(self).leads_to(final(self)),
            final(self).ending() == old(self).ending(),
            r is Err <==> old(self).remaining().len() == 0 && old(self).ending() is Some,
            r matches Ok(n) ==> n == old(self).grant(0, old(buf)@.len() as int),
            match r {
                Ok(n) => {
                    &&& n <= old(buf)@.len()
                    &&& n <= old(self).remaining().len()
                    &&& n == 0 ==> old(buf)@.len() == 0 || (old(self).remaining().len() == 0
                        && old(self).ending() is None)
                    &&& final(buf)@ == old(self).remaining().take(n as int) + old(buf)@.skip(
                        n as int,
                    )
                    &&& final(self).remaining() == old(self).remaining().skip(n as int)
                },
                Err(e) => {
                    &&& old(self).remaining().len() == 0
                    &&& old(self).ending() == Some(e)
                    &&& final(buf)@ == old(buf)@
                    &&& final(self).remaining() == old(self).remaining()
                },
            },
    ;
}

/// A stream over bytes held in memory.
///
/// It hands out at most `chunk` bytes per read, so that short reads can be
/// produced at will, and ends the way it was told to.
pub struct MemoryStream {
    data: Vec<u8>,
    pos: usize,
    end: Option<Error>,
    chunk: usize,
}

impl MemoryStream {
    /// All the bytes that the stream was made of.
    pub closed spec fn contents(&self) -> Seq<u8> {
        self.data@
    }

    /// How many of them have been read.
    pub closed spec fn spec_position(&self) -> nat {
        self.pos as nat
    }

    /// The most bytes that one read hands out.
    pub closed spec fn spec_chunk(&self) -> nat {
        self.chunk as nat
    }

    /// A stream that delivers `data` and then ends as `end` says.
    pub fn new(data: Vec<u8>, end: Option<Error>) -> (s: Self)
        ensures
            s.inv(),
            s.contents() == data@,
            s.spec_position() == 0,
            s.remaining() == data@,
            s.ending() == end,
            s.spec_chunk() == usize::MAX,
    {
        MemoryStream { data, pos: 0, end, chunk: usize::MAX }
    }

    /// As `new`, but no read hands out more than `chunk` bytes. A `chunk` of
    /// zero is taken as one.
    pub fn chunked(data: Vec<u8>, end: Option<Error>, chunk: usize) -> (s: Self)
        ensures
            s.inv(),
            s.contents() == data@,
            s.spec_position() == 0,
            s.remaining() == data@,
            s.ending() == end,
            s.spec_chunk() == if chunk == 0 { 1 } else { chunk as nat },
    {
        MemoryStream { data, pos: 0, end, chunk: if chunk == 0 { 1 } else { chunk } }
    }

    /// How many bytes have been read.
    pub fn position(&self) -> (p: usize)
        requires
            self.inv(),
        ensures
            p == self.spec_position(),
            p <= self.contents().len(),
            self.remaining() == self.contents().skip(p as int),
    {
        self.pos
    }

    /// The bytes that have not been read.
    pub fn unread(&self) -> (rest: Vec<u8>)
        requires
            self.inv(),
        ensures
            rest@ == self.remaining(),
    {
        let mut rest: Vec<u8> = Vec::new();
        let mut i: usize = self.pos;
        while i < self.data.len()
            invariant
                self.pos <= i <= self.data.len(),
                rest@ == self.data@.subrange(self.pos as int, i as int),
            decreases self.data.len() - i,
        {
            rest.push(self.data[i]);
            i += 1;
        }
        rest
    }
}

impl ByteStream for MemoryStream {
    closed spec fn inv(&self) -> bool {
        self.pos <= self.data.len() && self.chunk >= 1
    }

    closed spec fn remaining(&self) -> Seq<u8> {
        self.data@.skip(self.pos as int)
    }

    closed spec fn ending(&self) -> Option<Error> {
        self.end
    }

    open spec fn leads_to(&self, later: &Self) -> bool {
        &&& later.contents() == self.contents()
        &&& later.spec_chunk() == self.spec_chunk()
        &&& later.ending() == self.ending()
        &&& later.spec_position() >= self.spec_position()
    }

    proof fn lemma_leads_to_itself(&self) {
    }

    proof fn lemma_leads_on(&self, mid: &Self, later: &Self) {
    }

    open spec fn grant(&self, ahead: int, room: int) -> int {
        min(min(room, self.remaining().len() - ahead), self.spec_chunk() as int)
    }

    proof fn lemma_grant_later(&self, later: &Self, ahead: int, room: int) {
    }

    /// Hands out as many of the unread bytes as `buf` and the chunk size
    /// allow. Once all are read, reports the ending.
    fn read(&mut self, buf: &mut [u8]) -> (r: Result<usize, Error>)
        ensures
            r matches Ok(n) ==> final(self).spec_position() == old(self).spec_position() + n,
            r is Err ==> final(self).spec_position() == old(self).spec_position(),
    {
        let avail: usize = self.data.len() - self.pos;
        if avail == 0 {
            if let Some(e) = self.end {
                return Err(e);
            }
        }
        let room: usize = if buf.len() < avail { buf.len() } else { avail };
        let n: usize = if room < self.chunk { room } else { self.chunk };
        let mut i: usize = 0;
        while i < n
            invariant
                i <= n,
                n <= buf.len(),
                n <= self.data.len() - self.pos,
                self.pos == old(self).pos,
                self.data == old(self).data,
                self.end == old(self).end,
                self.chunk == old(self).chunk,
                buf@.len() == old(buf)@.len(),
                buf@ == old(self).remaining().take(i as int) + old(buf)@.skip(i as int),
            decreases n - i,
        {
            buf[i] = self.data[self.pos + i];
            i += 1;
        }
        self.pos = self.pos + n;
        Ok(n)
    }
}

} // verus!
