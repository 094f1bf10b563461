//! A stream that keeps a tape of every byte read through it.

use crate::error::Error;
use crate::stream::ByteStream;
use vstd::prelude::*;
use vstd::slice::slice_subrange;

verus! {

/// A stream that hands on what its inner stream delivers and appends every
/// byte it hands on to a tape, so that replaying the tape and then reading on
/// from the inner stream gives the inner stream as it was when wrapped.
pub struct RecordingReader<R: ByteStream> {
    reader: R,
    buf: Vec<u8>,
    source: Ghost<Seq<u8>>,
}

impl<R: ByteStream> RecordingReader<R> {
    /// The inner stream.
    pub closed spec fn inner(&self) -> R {
        self.reader
    }

    /// The bytes recorded so far.
    pub closed spec fn tape(&self) -> Seq<u8> {
        self.buf@
    }

    /// The bytes that the inner stream had to deliver when it was wrapped.
    pub closed spec fn source(&self) -> Seq<u8> {
        self.source@
    }

    /// Wraps `reader`, with an empty tape.
    pub fn new(reader: R) -> (s: Self)
        requires
            reader.inv(),
        ensures
            s.inv(),
            s.inner() == reader,
            s.tape() == Seq::<u8>::empty(),
            s.source() == reader.remaining(),
    {
        let ghost source = reader.remaining();
        proof {
            assert(Seq::<u8>::empty() + source =~= source);
        }
        RecordingReader { reader, buf: Vec::new(), source: Ghost(source) }
    }

    /// The bytes recorded so far.
    pub fn recorded(&self) -> (tape: &[u8])
        ensures
            tape@ == self.tape(),
    {
        self.buf.as_slice()
    }

    /// Takes the wrapper apart into the inner stream and the tape.
    pub fn deconstruct(self) -> (parts: (R, Vec<u8>))
        ensures
            parts.0 == self.inner(),
            parts.1@ == self.tape(),
    {
        (self.reader, self.buf)
    }
}

impl<R: ByteStream> ByteStream for RecordingReader<R> {
    open spec fn inv(&self) -> bool {
        self.inner().inv() && self.tape() + self.inner().remaining() == self.source()
    }

    open spec fn remaining(&self) -> Seq<u8> {
        self.inner().remaining()
    }

    open spec fn ending(&self) -> Option<Error> {
        self.inner().ending()
    }

    open spec fn leads_to(&self, later: &Self) -> bool {
        self.inner().leads_to(&later.inner()) && later.source() == self.source()
    }

    proof fn lemma_leads_to_itself(&self) {
        self.inner().lemma_leads_to_itself();
    }

    proof fn lemma_leads_on(&self, mid: &Self, later: &Self) {
        self.inner().lemma_leads_on(&mid.inner(), &later.inner());
    }

    open spec fn grant(&self, ahead: int, room: int) -> int {
        self.inner().grant(ahead, room)
    }

    proof fn lemma_grant_later(&self, later: &Self, ahead: int, room: int) {
        self.inner().lemma_grant_later(&later.inner(), ahead, room);
    }

    /// Makes one read of the inner stream with the caller's buffer, records
    /// what it delivered, and returns its result: the count is the inner
    /// stream's for that buffer, the failure is the inner stream's own.
    fn read(&mut self, buf: &mut [u8]) -> (r: Result<usize, Error>)
        ensures
            r matches Ok(n) ==> n == old(self).inner().grant(0, old(buf)@.len() as int)
                && final(self).inner().remaining() == old(self).inner().remaining().skip(n as int),
            r matches Err(e) ==> old(self).inner().ending() == Some(e)
                && final(self).inner().remaining() == old(self).inner().remaining(),
            match r {
                Ok(n) => final(self).tape() == old(self).tape() + old(self).remaining().take(
                    n as int,
                ),
                Err(_) => final(self).tape() == old(self).tape(),
            },
    {
        let ghost before = self.reader.remaining();
        let r = self.reader.read(buf);
        if let Ok(n) = r {
            let fresh = slice_subrange(buf, 0, n);
            self.buf.extend_from_slice(fresh);
            proof {
                assert(fresh@ =~= before.take(n as int));
                assert(self.buf@ + self.reader.remaining() =~= old(self).buf@ + before);
            }
        }
        r
    }
}

/// Tape fidelity: after any reads, the tape is the front of the bytes that
/// the inner stream had to deliver when it was wrapped, as long as the number
/// of bytes read, and the inner stream holds the rest.
pub proof fn lemma_tape_is_prefix<R: ByteStream>(reader: RecordingReader<R>)
    requires
        reader.inv(),
    ensures
        reader.tape().len() <= reader.source().len(),
        reader.tape() == reader.source().take(reader.tape().len() as int),
        reader.inner().remaining() == reader.source().skip(reader.tape().len() as int),
{
    let tape = reader.tape();
    let rest = reader.inner().remaining();
    assert((tape + rest).take(tape.len() as int) =~= tape);
    assert((tape + rest).skip(tape.len() as int) =~= rest);
}

} // verus!
