//! Bounded views of a stream, and the reading of fixed and length-prefixed
//! fields.

use crate::error::{Error, IoKind};
use crate::stream::{eof_error, supply_of, ByteStream, Supply};
use crate::wire::{be16, be24, decode_u16, decode_u24};
use vstd::math::min;
use vstd::prelude::*;

verus! {

/// A view of a stream that ends where a declared length says, whatever the
/// stream still holds beyond.
///
/// A cursor starts without a bound. Each `narrow` can only bring the end
/// closer, so the length that encloses a field bounds every field within it.
pub struct ParserCursor<R: ByteStream> {
    stream: R,
    limit: Option<u64>,
}

impl<R: ByteStream> ParserCursor<R> {
    /// The stream that the cursor reads from.
    pub closed spec fn inner(&self) -> R {
        self.stream
    }

    /// How many more bytes the cursor may take from its stream, if bounded.
    pub closed spec fn bound(&self) -> Option<u64> {
        self.limit
    }

    /// What the cursor will yield: the supply of its stream, cut at the
    /// bound.
    pub open spec fn window(&self) -> Supply {
        match self.bound() {
            None => supply_of(&self.inner()),
            Some(limit) => supply_of(&self.inner()).narrow(limit as int),
        }
    }

    /// How many bytes the stream gave up between this cursor and `later`.
    pub open spec fn taken_until(&self, later: &Self) -> int {
        self.inner().remaining().len() - later.inner().remaining().len()
    }

    /// Whether `later` is this cursor after reads and narrowings: the stream
    /// gave up no more than the window held, and the window shrank by as
    /// much at least.
    pub open spec fn confines(&self, later: &Self) -> bool {
        &&& self.inner().leads_to(&later.inner())
        &&& 0 <= self.taken_until(later)
        &&& later.window().bytes.len() + self.taken_until(later) <= self.window().bytes.len()
    }

    /// Reads of a cursor take nothing from its stream beyond the window.
    pub proof fn lemma_reads_are_confined(&self, later: &Self)
        requires
            self.leads_to(later),
        ensures
            self.confines(later),
    {
    }

    /// Reads and narrowings that follow reads and narrowings stay within
    /// the first window.
    pub proof fn lemma_confines_on(&self, mid: &Self, later: &Self)
        requires
            self.confines(mid),
            mid.confines(later),
        ensures
            self.confines(later),
    {
        self.inner().lemma_leads_on(&mid.inner(), &later.inner());
    }

    /// As `lemma_confines_on`, where the later steps were reads alone.
    pub proof fn lemma_confines_reads(&self, mid: &Self, later: &Self)
        requires
            self.confines(mid),
            mid.leads_to(later),
        ensures
            self.confines(later),
    {
        mid.lemma_reads_are_confined(later);
        self.lemma_confines_on(mid, later);
    }

    /// An unbounded cursor over `stream`.
    pub fn new(stream: R) -> (cursor: Self)
        requires
            stream.inv(),
        ensures
            cursor.inv(),
            cursor.inner() == stream,
            cursor.bound() is None,
    {
        ParserCursor { stream, limit: None }
    }

    /// Ends the cursor after `len` more bytes, unless it ends sooner already.
    pub fn narrow(&mut self, len: u64)
        requires
            old(self).inv(),
        ensures
            final(self).inv(),
            final(self).inner() == old(self).inner(),
            final(self).bound() == Some(
                match old(self).bound() {
                    Some(limit) if limit < len => limit,
                    _ => len,
                },
            ),
            final(self).window() == old(self).window().narrow(len as int),
            old(self).confines(final(self)),
    {
        let ghost raw = self.stream.remaining();
        proof {
            self.stream.lemma_leads_to_itself();
        }
        match self.limit {
            Some(limit) if limit < len => {
                proof {
                    if limit <= raw.len() {
                        assert(raw.take(limit as int).len() == limit);
                    }
                }
            },
            Some(limit) => {
                self.limit = Some(len);
                proof {
                    if limit <= raw.len() {
                        assert(raw.take(limit as int).take(len as int) =~= raw.take(len as int));
                    }
                }
            },
            None => {
                self.limit = Some(len);
            },
        }
    }

    /// Gives the stream back.
    pub fn into_inner(self) -> (stream: R)
        ensures
            stream == self.inner(),
    {
        self.stream
    }
}

impl<R: ByteStream> ByteStream for ParserCursor<R> {
    open spec fn inv(&self) -> bool {
        self.inner().inv()
    }

    open spec fn remaining(&self) -> Seq<u8> {
        self.window().bytes
    }

    open spec fn ending(&self) -> Option<Error> {
        self.window().ending
    }

    open spec fn leads_to(&self, later: &Self) -> bool {
        &&& self.inner().leads_to(&later.inner())
        &&& self.taken_until(later) >= 0
        &&& match self.bound() {
            None => later.bound() is None,
            Some(limit) => later.bound() == Some((limit - self.taken_until(later)) as u64)
                && self.taken_until(later) <= limit,
        }
    }

    proof fn lemma_leads_to_itself(&self) {
        self.inner().lemma_leads_to_itself();
    }

    proof fn lemma_leads_on(&self, mid: &Self, later: &Self) {
        self.inner().lemma_leads_on(&mid.inner(), &later.inner());
    }

    open spec fn grant(&self, ahead: int, room: int) -> int {
        match self.bound() {
            None => self.inner().grant(ahead, room),
            Some(limit) => if limit <= ahead {
                0
            } else {
                self.inner().grant(ahead, min(room, limit - ahead))
            },
        }
    }

    proof fn lemma_grant_later(&self, later: &Self, ahead: int, room: int) {
        self.inner().lemma_grant_later(&later.inner(), ahead, room);
        if let Some(limit) = self.bound() {
            self.inner().lemma_grant_later(
                &later.inner(),
                ahead,
                min(room, limit - self.taken_until(later) - ahead),
            );
        }
    }

    /// Makes one read of the stream with the front of `buf`, as much of it
    /// as the bound allows, and returns its result. At the bound the cursor
    /// reports end of stream and leaves its stream alone.
    fn read(&mut self, buf: &mut [u8]) -> (r: Result<usize, Error>)
        ensures
            match r {
                Ok(n) => final(self).inner().remaining() == old(self).inner().remaining().skip(
                    n as int,
                ),
                Err(_) => final(self).inner().remaining() == old(self).inner().remaining(),
            },
    {
        let ghost raw = self.stream.remaining();
        let cap: usize = match self.limit {
            Some(limit) if limit < buf.len() as u64 => limit as usize,
            _ => buf.len(),
        };
        if let Some(limit) = self.limit {
            if limit == 0 {
                proof {
                    self.stream.lemma_leads_to_itself();
                    assert(raw.skip(0) =~= raw);
                    assert(self.remaining().skip(0) =~= self.remaining());
                    assert(self.remaining().take(0) + buf@.skip(0) =~= buf@);
                }
                return Ok(0);
            }
        }
        let (head, tail) = buf.split_at_mut(cap);
        match self.stream.read(head) {
            Ok(n) => {
                if let Some(limit) = self.limit {
                    self.limit = Some(limit - n as u64);
                    proof {
                        if limit <= raw.len() {
                            assert(raw.skip(n as int).take(limit - n) =~= raw.take(
                                limit as int,
                            ).skip(n as int));
                            assert(raw.take(limit as int).take(n as int) =~= raw.take(n as int));
                        }
                    }
                }
                proof {
                    let filled = old(buf)@;
                    assert((raw.take(n as int) + filled.subrange(0, cap as int).skip(n as int))
                        + filled.subrange(cap as int, filled.len() as int) =~= raw.take(n as int)
                        + filled.skip(n as int));
                }
                Ok(n)
            },
            Err(e) => {
                proof {
                    let filled = old(buf)@;
                    assert(filled.subrange(0, cap as int) + filled.subrange(
                        cap as int,
                        filled.len() as int,
                    ) =~= filled);
                }
                Err(e)
            },
        }
    }
}

/// Fills `buf` from the front of `reader`, reading as often as it takes.
/// Where the stream ends first, all of it is consumed and the error is the
/// stream's own, or `UnexpectedEof` at a plain end of stream.
pub fn read_exact<R: ByteStream>(reader: &mut R, buf: &mut [u8]) -> (r: Result<(), Error>)
    requires
        old(reader).inv(),
    ensures
        final(reader).inv(),
        old(reader).leads_to(final(reader)),
        supply_of(final(reader)) == supply_of(old(reader)).advance(old(buf)@.len() as int),
        final(buf)@.len() == old(buf)@.len(),
        match r {
            Ok(()) => old(reader).remaining().len() >= old(buf)@.len() && final(buf)@ == old(
                reader,
            ).remaining().take(old(buf)@.len() as int),
            Err(e) => old(reader).remaining().len() < old(buf)@.len() && e == eof_error(
                old(reader).ending(),
            ),
        },
{
    let ghost source = reader.remaining();
    let mut filled: usize = 0;
    proof {
        assert(source.skip(0) =~= source);
        assert(buf@.take(0) =~= source.take(0));
        reader.lemma_leads_to_itself();
    }
    while filled < buf.len()
        invariant
            reader.inv(),
            old(reader).leads_to(reader),
            reader.ending() == old(reader).ending(),
            buf@.len() == old(buf)@.len(),
            filled <= buf@.len(),
            filled <= source.len(),
            source == old(reader).remaining(),
            reader.remaining() == source.skip(filled as int),
            buf@.take(filled as int) == source.take(filled as int),
        decreases buf@.len() - filled,
    {
        let ghost before = buf@;
        let ghost mid = *reader;
        let (head, tail) = buf.split_at_mut(filled);
        let outcome = reader.read(tail);
        proof {
            old(reader).lemma_leads_on(&mid, reader);
        }
        match outcome {
            Ok(n) => {
                if n == 0 {
                    proof {
                        assert(reader.remaining() =~= Seq::<u8>::empty());
                    }
                    return Err(Error::IoError(IoKind::UnexpectedEof));
                }
                proof {
                    assert(source.skip(filled as int).skip(n as int) =~= source.skip(filled + n));
                    assert(buf@.take(filled + n) =~= before.take(filled as int) + source.skip(
                        filled as int,
                    ).take(n as int));
                    assert(source.take(filled + n) =~= source.take(filled as int) + source.skip(
                        filled as int,
                    ).take(n as int));
                }
                filled = filled + n;
            },
            Err(e) => {
                proof {
                    assert(reader.remaining() =~= Seq::<u8>::empty());
                }
                return Err(e);
            },
        }
    }
    proof {
        assert(buf@.take(filled as int) =~= buf@);
    }
    Ok(())
}

/// Reads and drops the next `len` bytes of `reader`: the stream advances by
/// exactly `len`. Where it holds fewer, all of it is consumed and the error
/// is the stream's own, or `UnexpectedEof` at a plain end of stream.
pub fn skip<R: ByteStream>(reader: &mut R, len: u64) -> (r: Result<(), Error>)
    requires
        old(reader).inv(),
    ensures
        final(reader).inv(),
        old(reader).leads_to(final(reader)),
        supply_of(final(reader)) == supply_of(old(reader)).advance(len as int),
        match r {
            Ok(()) => old(reader).remaining().len() >= len && final(reader).remaining() == old(
                reader,
            ).remaining().skip(len as int),
            Err(e) => old(reader).remaining().len() < len && e == eof_error(
                old(reader).ending(),
            ) && final(reader).remaining().len() == 0,
        },
{
    let ghost source = reader.remaining();
    let mut scratch = [0u8;256];
    let mut left: u64 = len;
    proof {
        assert(source.skip(0) =~= source);
        reader.lemma_leads_to_itself();
    }
    while left > 0
        invariant
            reader.inv(),
            old(reader).leads_to(reader),
            reader.ending() == old(reader).ending(),
            source == old(reader).remaining(),
            left <= len,
            len - left <= source.len(),
            reader.remaining() == source.skip(len - left),
        decreases left,
    {
        let want: usize = if left < 256 {
            left as usize
        } else {
            256
        };
        let ghost mid = *reader;
        let (head, tail) = scratch.split_at_mut(want);
        let outcome = reader.read(head);
        proof {
            old(reader).lemma_leads_on(&mid, reader);
        }
        match outcome {
            Ok(n) => {
                if n == 0 {
                    proof {
                        assert(reader.remaining() =~= Seq::<u8>::empty());
                    }
                    return Err(Error::IoError(IoKind::UnexpectedEof));
                }
                proof {
                    assert(source.skip(len - left).skip(n as int) =~= source.skip(
                        len - left + n,
                    ));
                }
                left = left - n as u64;
            },
            Err(e) => {
                proof {
                    assert(reader.remaining() =~= Seq::<u8>::empty());
                }
                return Err(e);
            },
        }
    }
    Ok(())
}

/// Skips a vector whose length is given by one byte before it. Where the
/// stream does not hold the whole vector, all of it is consumed and the
/// error is as with `skip`.
pub fn skip_vec_u8<R: ByteStream>(reader: &mut R) -> (r: Result<(), Error>)
    requires
        old(reader).inv(),
    ensures
        final(reader).inv(),
        old(reader).leads_to(final(reader)),
        supply_of(final(reader)) == past_vec_u8(supply_of(old(reader))),
        match r {
            Ok(()) => holds_vec_u8(old(reader).remaining()),
            Err(e) => !holds_vec_u8(old(reader).remaining()) && e == eof_error(
                old(reader).ending(),
            ),
        },
{
    match read_u8(reader) {
        Ok(sz) => {
            let ghost mid = *reader;
            let r = skip(reader, sz as u64);
            proof {
                old(reader).lemma_leads_on(&mid, reader);
            }
            r
        },
        Err(e) => Err(e),
    }
}

/// Skips a vector whose length is given by two bytes before it. Where the
/// stream does not hold the whole vector, all of it is consumed and the
/// error is as with `skip`.
pub fn skip_vec_u16<R: ByteStream>(reader: &mut R) -> (r: Result<(), Error>)
    requires
        old(reader).inv(),
    ensures
        final(reader).inv(),
        old(reader).leads_to(final(reader)),
        supply_of(final(reader)) == past_vec_u16(supply_of(old(reader))),
        match r {
            Ok(()) => holds_vec_u16(old(reader).remaining()),
            Err(e) => !holds_vec_u16(old(reader).remaining()) && e == eof_error(
                old(reader).ending(),
            ),
        },
{
    match read_u16(reader) {
        Ok(sz) => {
            let ghost mid = *reader;
            let r = skip(reader, sz as u64);
            proof {
                old(reader).lemma_leads_on(&mid, reader);
            }
            r
        },
        Err(e) => Err(e),
    }
}

/// Whether `bytes` start with a whole vector behind its one-byte length.
pub open spec fn holds_vec_u8(bytes: Seq<u8>) -> bool {
    bytes.len() >= 1 && bytes.len() >= 1 + bytes[0]
}

/// Whether `bytes` start with a whole vector behind its two-byte length.
pub open spec fn holds_vec_u16(bytes: Seq<u8>) -> bool {
    bytes.len() >= 2 && bytes.len() >= 2 + be16(bytes[0], bytes[1])
}

/// What is left of a supply past a vector with a one-byte length at its
/// front: nothing where the length itself is missing.
pub open spec fn past_vec_u8(supply: Supply) -> Supply {
    if supply.bytes.len() < 1 {
        supply.advance(1)
    } else {
        supply.advance(1).advance(supply.bytes[0] as int)
    }
}

/// What is left of a supply past a vector with a two-byte length at its
/// front: nothing where the length itself is cut short.
pub open spec fn past_vec_u16(supply: Supply) -> Supply {
    if supply.bytes.len() < 2 {
        supply.advance(2)
    } else {
        supply.advance(2).advance(be16(supply.bytes[0], supply.bytes[1]))
    }
}

/// Reads one byte.
pub fn read_u8<R: ByteStream>(reader: &mut R) -> (r: Result<u8, Error>)
    requires
        old(reader).inv(),
    ensures
        final(reader).inv(),
        old(reader).leads_to(final(reader)),
        supply_of(final(reader)) == supply_of(old(reader)).advance(1),
        match r {
            Ok(v) => old(reader).remaining().len() >= 1 && v == old(reader).remaining()[0],
            Err(e) => old(reader).remaining().len() < 1 && e == eof_error(old(reader).ending()),
        },
{
    let mut buf = [0u8;1];
    match read_exact(reader, &mut buf) {
        Ok(()) => Ok(buf[0]),
        Err(e) => Err(e),
    }
}

/// Reads a big-endian integer of two bytes.
pub fn read_u16<R: ByteStream>(reader: &mut R) -> (r: Result<u16, Error>)
    requires
        old(reader).inv(),
    ensures
        final(reader).inv(),
        old(reader).leads_to(final(reader)),
        supply_of(final(reader)) == supply_of(old(reader)).advance(2),
        match r {
            Ok(v) => old(reader).remaining().len() >= 2 && v == be16(
                old(reader).remaining()[0],
                old(reader).remaining()[1],
            ),
            Err(e) => old(reader).remaining().len() < 2 && e == eof_error(old(reader).ending()),
        },
{
    let mut buf = [0u8;2];
    match read_exact(reader, &mut buf) {
        Ok(()) => Ok(decode_u16(&buf)),
        Err(e) => Err(e),
    }
}

/// Reads a big-endian integer of three bytes.
pub fn read_u24<R: ByteStream>(reader: &mut R) -> (r: Result<u32, Error>)
    requires
        old(reader).inv(),
    ensures
        final(reader).inv(),
        old(reader).leads_to(final(reader)),
        supply_of(final(reader)) == supply_of(old(reader)).advance(3),
        match r {
            Ok(v) => old(reader).remaining().len() >= 3 && v == be24(
                old(reader).remaining()[0],
                old(reader).remaining()[1],
                old(reader).remaining()[2],
            ),
            Err(e) => old(reader).remaining().len() < 3 && e == eof_error(old(reader).ending()),
        },
{
    let mut buf = [0u8;3];
    match read_exact(reader, &mut buf) {
        Ok(()) => Ok(decode_u24(&buf)),
        Err(e) => Err(e),
    }
}

} // verus!
