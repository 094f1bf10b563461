//! The TLS record layer, read as one stream of handshake payload.

use crate::error::{Error, IoKind};
use crate::stream::{eof_error, ByteStream, Supply};
use crate::wire::{be16, decode_u16};
use vstd::math::min;
use vstd::prelude::*;

verus! {

/// The content type of a handshake record.
pub const CONTENT_TYPE_HANDSHAKE: u8 = 22;

/// The most payload bytes that one record may declare.
pub const MAX_RECORD_SIZE: u16 = 16384;

/// Where a record reader stands within the record at the front of its stream.
#[derive(Clone, Copy, Debug, PartialEq, Eq)]
pub enum RecordReaderState {
    /// No byte of the record has been taken.
    AwaitingContentType,
    /// The content type was accepted, and `got` bytes of the legacy version.
    AwaitingVersion { got: u8 },
    /// The version was taken, and the first `got` bytes of the length, which
    /// are kept in `buf`.
    AwaitingLength { buf: [u8; 2], got: u8 },
    /// The header was taken; the record still owes `remaining` payload bytes.
    InPayload { remaining: u16 },
}

impl RecordReaderState {
    /// The states that a reader can be in between two reads.
    pub open spec fn wf(self) -> bool {
        match self {
            RecordReaderState::AwaitingContentType => true,
            RecordReaderState::AwaitingVersion { got } => got <= 1,
            RecordReaderState::AwaitingLength { buf, got } => got <= 1,
            RecordReaderState::InPayload { remaining } => 1 <= remaining <= MAX_RECORD_SIZE,
        }
    }
}

/// A supply that holds nothing and ends in `e`.
pub open spec fn failing(e: Error) -> Supply {
    Supply { bytes: Seq::empty(), ending: Some(e) }
}

/// The payload carried by the records of `raw`, where `raw` starts at a
/// record boundary and the raw stream ends as `ending` says.
///
/// Payloads of consecutive handshake records follow one another without a
/// seam. A record of another content type or of more than
/// `MAX_RECORD_SIZE` bytes ends the payload with the matching error, a
/// header cut short ends it as `eof_error` says, and a payload cut short
/// ends as the raw stream does.
pub open spec fn handshake_payloads(raw: Seq<u8>, ending: Option<Error>) -> Supply
    decreases raw.len(),
{
    if raw.len() == 0 {
        Supply { bytes: Seq::empty(), ending }
    } else if raw[0] != CONTENT_TYPE_HANDSHAKE {
        failing(Error::MalformedRecord { content_type: raw[0] })
    } else if raw.len() < 5 {
        failing(eof_error(ending))
    } else {
        let length = be16(raw[3], raw[4]);
        if length > MAX_RECORD_SIZE {
            failing(Error::RecordTooLarge { length: length as u16 })
        } else if raw.len() < 5 + length {
            Supply { bytes: raw.skip(5), ending }
        } else {
            handshake_payloads(raw.skip(5 + length), ending).after(raw.subrange(5, 5 + length))
        }
    }
}

/// The payload to come where the record at the front still owes `owed`
/// bytes and `raw` starts with them.
pub open spec fn payload_then_records(owed: int, raw: Seq<u8>, ending: Option<Error>) -> Supply {
    if raw.len() < owed {
        Supply { bytes: raw, ending }
    } else {
        handshake_payloads(raw.skip(owed), ending).after(raw.take(owed))
    }
}

/// The payload to come where the length bytes `b0`, `b1` of the record at
/// the front were just read and `raw` follows them.
pub open spec fn after_length(b0: u8, b1: u8, raw: Seq<u8>, ending: Option<Error>) -> Supply {
    if be16(b0, b1) > MAX_RECORD_SIZE {
        failing(Error::RecordTooLarge { length: be16(b0, b1) as u16 })
    } else {
        payload_then_records(be16(b0, b1), raw, ending)
    }
}

/// The payload that a reader in `state` will deliver from a raw stream that
/// holds `raw` and ends as `ending` says.
pub open spec fn pending_payloads(
    state: RecordReaderState,
    raw: Seq<u8>,
    ending: Option<Error>,
) -> Supply {
    match state {
        RecordReaderState::AwaitingContentType => handshake_payloads(raw, ending),
        RecordReaderState::AwaitingVersion { got } => if raw.len() < 4 - got {
            failing(eof_error(ending))
        } else {
            after_length(raw[2 - got], raw[3 - got], raw.skip(4 - got), ending)
        },
        RecordReaderState::AwaitingLength { buf, got } => if raw.len() < 2 - got {
            failing(eof_error(ending))
        } else if got == 0 {
            after_length(raw[0], raw[1], raw.skip(2), ending)
        } else {
            after_length(buf[0], raw[0], raw.skip(1), ending)
        },
        RecordReaderState::InPayload { remaining } => payload_then_records(
            remaining as int,
            raw,
            ending,
        ),
    }
}

/// Where a reader comes to rest when it takes headers until payload is at
/// the front, the raw bytes give out, or a record is refused.
pub ghost struct Rest {
    /// The state at rest.
    pub state: RecordReaderState,
    /// The raw bytes taken on the way.
    pub taken: int,
    /// The error of the record that was refused, if one was.
    pub refused: Option<Error>,
}

impl Rest {
    /// The same rest, reached after `k` more bytes were taken before.
    pub open spec fn later(self, k: int) -> Rest {
        Rest { taken: self.taken + k, ..self }
    }

    /// The payload bytes that the record at the front owes at rest: the
    /// most that one read may return.
    pub open spec fn owed(self) -> int {
        match self.state {
            RecordReaderState::InPayload { remaining } => remaining as int,
            _ => 0,
        }
    }
}

/// The rest of a reader that starts in `state` with `raw` before it.
///
/// The content type must be `CONTENT_TYPE_HANDSHAKE`, the version is taken
/// whatever it is, the length must not exceed `MAX_RECORD_SIZE`, and a
/// record without payload is passed over. A reader that refuses a record
/// rests at the record boundary.
pub open spec fn through_headers(state: RecordReaderState, raw: Seq<u8>) -> Rest
    decreases raw.len(),
{
    match state {
        RecordReaderState::AwaitingContentType => if raw.len() == 0 {
            Rest { state, taken: 0, refused: None }
        } else if raw[0] != CONTENT_TYPE_HANDSHAKE {
            Rest {
                state,
                taken: 1,
                refused: Some(Error::MalformedRecord { content_type: raw[0] }),
            }
        } else {
            through_headers(RecordReaderState::AwaitingVersion { got: 0 }, raw.skip(1)).later(1)
        },
        RecordReaderState::AwaitingVersion { got } => if got > 1 || raw.len() < 2 - got {
            Rest {
                state: RecordReaderState::AwaitingVersion { got: (got + raw.len()) as u8 },
                taken: raw.len() as int,
                refused: None,
            }
        } else {
            through_headers(
                RecordReaderState::AwaitingLength { buf: [0, 0], got: 0 },
                raw.skip(2 - got),
            ).later(2 - got)
        },
        RecordReaderState::AwaitingLength { buf, got } => if got > 1 || raw.len() < 2 - got {
            Rest {
                state: RecordReaderState::AwaitingLength {
                    buf: if raw.len() == 1 {
                        [raw[0], 0]
                    } else {
                        buf
                    },
                    got: (got + raw.len()) as u8,
                },
                taken: raw.len() as int,
                refused: None,
            }
        } else {
            let b0 = if got == 0 {
                raw[0]
            } else {
                buf[0]
            };
            let b1 = raw[1 - got];
            if be16(b0, b1) > MAX_RECORD_SIZE {
                Rest {
                    state: RecordReaderState::AwaitingContentType,
                    taken: 2 - got,
                    refused: Some(Error::RecordTooLarge { length: be16(b0, b1) as u16 }),
                }
            } else if be16(b0, b1) == 0 {
                through_headers(RecordReaderState::AwaitingContentType, raw.skip(2 - got)).later(
                    2 - got,
                )
            } else {
                Rest {
                    state: RecordReaderState::InPayload { remaining: be16(b0, b1) as u16 },
                    taken: 2 - got,
                    refused: None,
                }
            }
        },
        RecordReaderState::InPayload { remaining } => Rest { state, taken: 0, refused: None },
    }
}

/// The state of a reader that has handed on `n` of the `owed` payload
/// bytes of the record at the front.
pub open spec fn state_after_payload(owed: int, n: int) -> RecordReaderState {
    if n == owed {
        RecordReaderState::AwaitingContentType
    } else {
        RecordReaderState::InPayload { remaining: (owed - n) as u16 }
    }
}

/// How many bytes a read with room for `room` hands out to a reader in
/// `state` once `ahead` payload bytes have been read, where `raw` is what
/// the raw stream `inner` holds `offset` bytes ahead.
///
/// Once payload is at the front, the reader makes one read of the raw
/// stream with as much room as the caller gives and the record still owes;
/// the count is the raw stream's own for that room.
pub open spec fn payload_grant<R: ByteStream>(
    inner: R,
    state: RecordReaderState,
    raw: Seq<u8>,
    offset: int,
    ahead: int,
    room: int,
) -> int
    decreases raw.len(),
{
    let rest = through_headers(state, raw);
    let owed = rest.owed();
    if rest.refused is Some || owed <= 0 || rest.taken < 0 {
        0
    } else if ahead < owed {
        inner.grant(offset + rest.taken + ahead, min(room, owed - ahead))
    } else if raw.len() < rest.taken + owed {
        0
    } else {
        payload_grant(
            inner,
            RecordReaderState::AwaitingContentType,
            raw.skip(rest.taken + owed),
            offset + rest.taken + owed,
            ahead - owed,
            room,
        )
    }
}

/// A reader at a record boundary, before a whole header of a handshake
/// record with payload, takes the five bytes of the header and rests with
/// the declared length owed.
pub proof fn lemma_rest_past_header(raw: Seq<u8>)
    requires
        raw.len() >= 5,
        raw[0] == CONTENT_TYPE_HANDSHAKE,
        1 <= be16(raw[3], raw[4]) <= MAX_RECORD_SIZE,
    ensures
        through_headers(RecordReaderState::AwaitingContentType, raw) == (Rest {
            state: RecordReaderState::InPayload { remaining: be16(raw[3], raw[4]) as u16 },
            taken: 5,
            refused: None,
        }),
{
    reveal_with_fuel(through_headers, 3);
    assert(raw.skip(1).skip(2) =~= raw.skip(3));
}

/// A reader at rest stays at rest: from the state at rest, with the raw
/// bytes taken on the way gone, no further header is taken.
pub proof fn lemma_rest_is_at_rest(state: RecordReaderState, raw: Seq<u8>)
    requires
        through_headers(state, raw).refused is None,
    ensures
        0 <= through_headers(state, raw).taken <= raw.len(),
        through_headers(
            through_headers(state, raw).state,
            raw.skip(through_headers(state, raw).taken),
        ) == (Rest { state: through_headers(state, raw).state, taken: 0, refused: None }),
    decreases raw.len(),
{
    let rest = through_headers(state, raw);
    match state {
        RecordReaderState::AwaitingContentType => {
            if raw.len() > 0 {
                let next = RecordReaderState::AwaitingVersion { got: 0 };
                lemma_rest_is_at_rest(next, raw.skip(1));
                assert(raw.skip(1).skip(rest.taken - 1) =~= raw.skip(rest.taken));
            }
        },
        RecordReaderState::AwaitingVersion { got } => {
            if !(got > 1 || raw.len() < 2 - got) {
                let next = RecordReaderState::AwaitingLength { buf: [0, 0], got: 0 };
                lemma_rest_is_at_rest(next, raw.skip(2 - got));
                assert(raw.skip(2 - got).skip(rest.taken - (2 - got)) =~= raw.skip(rest.taken));
            }
        },
        RecordReaderState::AwaitingLength { buf, got } => {
            if !(got > 1 || raw.len() < 2 - got) {
                let b0 = if got == 0 {
                    raw[0]
                } else {
                    buf[0]
                };
                if be16(b0, raw[1 - got]) == 0 {
                    let next = RecordReaderState::AwaitingContentType;
                    lemma_rest_is_at_rest(next, raw.skip(2 - got));
                    assert(raw.skip(2 - got).skip(rest.taken - (2 - got)) =~= raw.skip(
                        rest.taken,
                    ));
                }
            }
        },
        RecordReaderState::InPayload { remaining } => {},
    }
}

/// Where one raw stream hands out at each place what another hands out `d`
/// bytes further on, a reader over the one is granted, at `offset`, what a
/// reader over the other is granted at `offset + d`.
proof fn lemma_grant_shift<R: ByteStream>(
    inner: R,
    later: R,
    d: int,
    state: RecordReaderState,
    raw: Seq<u8>,
    offset: int,
    ahead: int,
    room: int,
)
    requires
        0 <= d,
        0 <= offset,
        0 <= ahead,
        forall|x: int, rm: int| 0 <= x ==> #[trigger] later.grant(x, rm) == inner.grant(x + d, rm),
    ensures
        payload_grant(later, state, raw, offset, ahead, room) == payload_grant(
            inner,
            state,
            raw,
            offset + d,
            ahead,
            room,
        ),
    decreases raw.len(),
{
    let rest = through_headers(state, raw);
    let owed = rest.owed();
    if rest.refused is Some || owed <= 0 || rest.taken < 0 {
    } else if ahead < owed {
        assert(later.grant(offset + rest.taken + ahead, min(room, owed - ahead)) == inner.grant(
            offset + rest.taken + ahead + d,
            min(room, owed - ahead),
        ));
    } else if raw.len() < rest.taken + owed {
    } else {
        lemma_grant_shift(
            inner,
            later,
            d,
            RecordReaderState::AwaitingContentType,
            raw.skip(rest.taken + owed),
            offset + rest.taken + owed,
            ahead - owed,
            room,
        );
    }
}

/// A raw stream that starts with a whole header reads on as `after_length`
/// says of what follows the header.
pub proof fn lemma_payloads_past_header(raw: Seq<u8>, ending: Option<Error>)
    requires
        raw.len() >= 5,
        raw[0] == CONTENT_TYPE_HANDSHAKE,
    ensures
        handshake_payloads(raw, ending) == after_length(raw[3], raw[4], raw.skip(5), ending),
{
    let length = be16(raw[3], raw[4]);
    if length <= MAX_RECORD_SIZE && raw.len() >= 5 + length {
        assert(raw.skip(5).take(length) =~= raw.subrange(5, 5 + length));
        assert(raw.skip(5).skip(length) =~= raw.skip(5 + length));
    }
}

/// Reads at most `want` bytes, one or two, from the front of `reader` and
/// returns their number and the bytes, padded with zeros.
fn read_up_to_two<R: ByteStream>(reader: &mut R, want: u8) -> (r: Result<(u8, [u8; 2]), Error>)
    requires
        old(reader).inv(),
        1 <= want <= 2,
    ensures
        final(reader).inv(),
        old(reader).leads_to(final(reader)),
        final(reader).ending() == old(reader).ending(),
        match r {
            Ok((n, bytes)) => {
                &&& n <= want
                &&& n <= old(reader).remaining().len()
                &&& n == 0 ==> old(reader).remaining().len() == 0 && old(reader).ending() is None
                &&& final(reader).remaining() == old(reader).remaining().skip(n as int)
                &&& forall|i: int| 0 <= i < n ==> bytes[i] == old(reader).remaining()[i]
                &&& forall|i: int| n <= i < 2 ==> bytes[i] == 0
            },
            Err(e) => {
                &&& old(reader).remaining().len() == 0
                &&& old(reader).ending() == Some(e)
                &&& final(reader).remaining() == old(reader).remaining()
            },
        },
{
    if want == 1 {
        let mut one = [0u8;1];
        match reader.read(&mut one) {
            Ok(n) => Ok((n as u8, [one[0], 0])),
            Err(e) => Err(e),
        }
    } else {
        let mut two = [0u8;2];
        match reader.read(&mut two) {
            Ok(n) => Ok((n as u8, two)),
            Err(e) => Err(e),
        }
    }
}

/// Taking `n` of the `owed` payload bytes from the front of `raw` takes them
/// from the front of the payload to come and changes nothing else of it.
proof fn lemma_payload_taken(owed: int, n: int, raw: Seq<u8>, ending: Option<Error>)
    requires
        0 <= n <= owed,
        n <= raw.len(),
    ensures
        n <= payload_then_records(owed, raw, ending).bytes.len(),
        payload_then_records(owed, raw, ending).bytes.take(n) == raw.take(n),
        payload_then_records(owed - n, raw.skip(n), ending) == payload_then_records(
            owed,
            raw,
            ending,
        ).advance(n),
        handshake_payloads(raw.skip(n), ending) == payload_then_records(0, raw.skip(n), ending),
{
    let before = payload_then_records(owed, raw, ending);
    let rest = raw.skip(n);
    let after = payload_then_records(owed - n, rest, ending);
    assert(before.bytes.take(n) =~= raw.take(n));
    if raw.len() >= owed {
        assert(rest.skip(owed - n) =~= raw.skip(owed));
        assert(rest.take(owed - n) =~= raw.subrange(n, owed));
    }
    assert(after.bytes =~= before.bytes.skip(n));
    assert(rest.skip(0) =~= rest);
    assert(rest.take(0) + handshake_payloads(rest, ending).bytes =~= handshake_payloads(
        rest,
        ending,
    ).bytes);
}

/// A buffer whose first `cap` places took `n` bytes of `data` at the front
/// holds those bytes and, behind them, what it held before.
proof fn lemma_front_filled(buf: Seq<u8>, cap: int, n: int, data: Seq<u8>)
    requires
        0 <= n <= cap <= buf.len(),
        n <= data.len(),
    ensures
        (data.take(n) + buf.subrange(0, cap).skip(n)) + buf.subrange(cap, buf.len() as int)
            == data.take(n) + buf.skip(n),
        buf.subrange(0, cap) + buf.subrange(cap, buf.len() as int) == buf,
{
    assert((data.take(n) + buf.subrange(0, cap).skip(n)) + buf.subrange(cap, buf.len() as int)
        =~= data.take(n) + buf.skip(n));
    assert(buf.subrange(0, cap) + buf.subrange(cap, buf.len() as int) =~= buf);
}

/// A stream of handshake payload, read out of a stream of TLS records.
///
/// Headers are taken from the raw stream and never handed on. A record that
/// is not a handshake record, or is too large, fails the reader for good:
/// every later read reports the same error and leaves the raw stream alone.
pub struct HandshakeRecordReader<R: ByteStream> {
    reader: R,
    state: RecordReaderState,
    failed: Option<Error>,
}

impl<R: ByteStream> HandshakeRecordReader<R> {
    /// The raw stream.
    pub closed spec fn inner(&self) -> R {
        self.reader
    }

    /// Where the reader stands in the record at the front.
    pub closed spec fn spec_state(&self) -> RecordReaderState {
        self.state
    }

    /// The record error that the reader has met, if any.
    pub closed spec fn failure(&self) -> Option<Error> {
        self.failed
    }

    /// The payload still to come, as long as no record error was met.
    pub open spec fn pending(&self) -> Supply {
        pending_payloads(self.spec_state(), self.inner().remaining(), self.inner().ending())
    }

    /// A reader at the first record boundary of `reader`.
    pub fn new(reader: R) -> (s: Self)
        requires
            reader.inv(),
        ensures
            s.inv(),
            s.inner() == reader,
            s.spec_state() == RecordReaderState::AwaitingContentType,
            s.failure() is None,
    {
        HandshakeRecordReader {
            reader,
            state: RecordReaderState::AwaitingContentType,
            failed: None,
        }
    }

    /// Where the reader stands in the record at the front.
    pub fn state(&self) -> (st: RecordReaderState)
        ensures
            st == self.spec_state(),
    {
        self.state
    }

    /// Gives the raw stream back.
    pub fn into_inner(self) -> (reader: R)
        ensures
            reader == self.inner(),
    {
        self.reader
    }
}

impl<R: ByteStream> ByteStream for HandshakeRecordReader<R> {
    open spec fn inv(&self) -> bool {
        self.inner().inv() && self.spec_state().wf()
    }

    open spec fn remaining(&self) -> Seq<u8> {
        if self.failure() is Some {
            Seq::empty()
        } else {
            self.pending().bytes
        }
    }

    open spec fn ending(&self) -> Option<Error> {
        if self.failure() is Some {
            self.failure()
        } else {
            self.pending().ending
        }
    }

    open spec fn leads_to(&self, later: &Self) -> bool {
        &&& self.inner().leads_to(&later.inner())
        &&& later.remaining().len() <= self.remaining().len()
        &&& forall|ahead: int, room: int|
            0 <= ahead ==> #[trigger] later.grant(ahead, room) == self.grant(
                ahead + self.remaining().len() - later.remaining().len(),
                room,
            )
    }

    proof fn lemma_leads_to_itself(&self) {
        self.inner().lemma_leads_to_itself();
    }

    proof fn lemma_leads_on(&self, mid: &Self, later: &Self) {
        self.inner().lemma_leads_on(&mid.inner(), &later.inner());
        let d1 = self.remaining().len() - mid.remaining().len();
        let d2 = mid.remaining().len() - later.remaining().len();
        assert forall|ahead: int, room: int| 0 <= ahead implies #[trigger] later.grant(ahead, room)
            == self.grant(ahead + d1 + d2, room) by {
            assert(later.grant(ahead, room) == mid.grant(ahead + d2, room));
            assert(mid.grant(ahead + d2, room) == self.grant(ahead + d2 + d1, room));
        }
    }

    open spec fn grant(&self, ahead: int, room: int) -> int {
        if self.failure() is Some {
            0
        } else {
            payload_grant(
                self.inner(),
                self.spec_state(),
                self.inner().remaining(),
                0,
                ahead,
                room,
            )
        }
    }

    proof fn lemma_grant_later(&self, later: &Self, ahead: int, room: int) {
    }

    /// Takes headers from the raw stream until payload is at the front, then
    /// makes one read of the raw stream, with as much of the caller's buffer
    /// as the record at the front still owes, and returns its result.
    fn read(&mut self, caller_buf: &mut [u8]) -> (r: Result<usize, Error>)
        ensures
            old(self).failure() is Some ==> *final(self) == *old(self),
            old(self).failure() is None ==> Self::settles(*old(self), *final(self), r),
            old(self).failure() is None ==> Self::counts(
                *old(self),
                r,
                old(caller_buf)@.len() as int,
            ),
            old(self).failure() is None ==> Self::delivers(*old(self), final(caller_buf)@, r),
            old(self).failure() is None ==> Self::reads_past_header(
                *old(self),
                r,
                old(caller_buf)@.len() as int,
            ),
    {
        if let Some(e) = self.failed {
            proof {
                self.lemma_leads_to_itself();
            }
            return Err(e);
        }
        let r = self.read_through(caller_buf);
        proof {
            Self::lemma_grant_after_read(*old(self), *self, r);
            if Self::at_whole_header(*old(self)) {
                lemma_rest_past_header(old(self).reader.remaining());
            }
        }
        r
    }
}

impl<R: ByteStream> HandshakeRecordReader<R> {
    /// The read of a reader that has met no record error.
    fn read_through(&mut self, caller_buf: &mut [u8]) -> (r: Result<usize, Error>)
        requires
            old(self).inv(),
            old(self).failed is None,
        ensures
            final(self).inv(),
            old(self).reader.leads_to(&final(self).reader),
            Self::settles(*old(self), *final(self), r),
            Self::counts(*old(self), r, old(caller_buf)@.len() as int),
            Self::delivers(*old(self), final(caller_buf)@, r),
            final(self).ending() == old(self).ending(),
            r is Err <==> old(self).remaining().len() == 0 && old(self).ending() is Some,
            match r {
                Ok(n) => {
                    &&& n <= old(caller_buf)@.len()
                    &&& n <= old(self).remaining().len()
                    &&& n == 0 ==> old(caller_buf)@.len() == 0 || (old(self).remaining().len() == 0
                        && old(self).ending() is None)
                    &&& final(caller_buf)@ == old(self).remaining().take(n as int) + old(
                        caller_buf,
                    )@.skip(n as int)
                    &&& final(self).remaining() == old(self).remaining().skip(n as int)
                },
                Err(e) => {
                    &&& old(self).remaining().len() == 0
                    &&& old(self).ending() == Some(e)
                    &&& final(caller_buf)@ == old(caller_buf)@
                    &&& final(self).remaining() == old(self).remaining()
                },
            },
    {
        proof {
            self.reader.lemma_leads_to_itself();
            assert(self.reader.remaining().skip(0) =~= self.reader.remaining());
        }
        loop
            invariant
                self.inv(),
                old(self).inv(),
                old(self).reader.leads_to(&self.reader),
                self.failed is None,
                old(self).failed is None,
                self.pending() == old(self).pending(),
                Self::moved_on(*old(self), *self),
                caller_buf@ == old(caller_buf)@,
            decreases self.reader.remaining().len(),
        {
            let ghost mid = *self;
            let step = match self.state {
                RecordReaderState::AwaitingContentType => self.take_content_type(),
                RecordReaderState::AwaitingVersion { got } => self.take_version(got),
                RecordReaderState::AwaitingLength { buf, got } => self.take_length(buf, got),
                RecordReaderState::InPayload { remaining } => {
                    let r = self.take_payload(remaining, caller_buf);
                    proof {
                        old(self).reader.lemma_leads_on(&mid.reader, &self.reader);
                        Self::lemma_settles_later(*old(self), mid, *self, r);
                        Self::lemma_counts_later(*old(self), mid, r, old(caller_buf)@.len() as int);
                        Self::lemma_delivers_later(*old(self), mid, caller_buf@, r);
                    }
                    return r;
                },
            };
            proof {
                old(self).reader.lemma_leads_on(&mid.reader, &self.reader);
            }
            match step {
                Some(r) => {
                    proof {
                        Self::lemma_settles_later(*old(self), mid, *self, r);
                        Self::lemma_counts_later(*old(self), mid, r, old(caller_buf)@.len() as int);
                        let raw = old(self).reader.remaining();
                        let taken = through_headers(old(self).state, raw).taken;
                        assert(caller_buf@.take(0) =~= raw.subrange(taken, taken));
                    }
                    return r;
                },
                None => {
                    proof {
                        Self::lemma_moved_on_twice(*old(self), mid, *self);
                    }
                },
            }
        }
    }

    /// What one read makes of a reader that has met no record error: it
    /// takes headers as far as `through_headers` says, and then at most
    /// what the record at the front owes. `post` and `r` are the reader and
    /// the result after the read of `pre`.
    pub open spec fn settles(pre: Self, post: Self, r: Result<usize, Error>) -> bool {
        let raw = pre.inner().remaining();
        let rest = through_headers(pre.spec_state(), raw);
        let n: int = match r {
            Ok(n) => n as int,
            Err(_) => 0,
        };
        &&& 0 <= rest.taken
        &&& n <= rest.owed()
        &&& rest.taken + n <= raw.len()
        &&& post.inner().remaining() == raw.skip(rest.taken + n)
        &&& post.failure() == rest.refused
        &&& rest.refused matches Some(e) ==> r == Err::<usize, Error>(e)
        &&& post.spec_state() == if n > 0 {
            state_after_payload(rest.owed(), n)
        } else {
            rest.state
        }
    }

    /// The count of one read of a reader that has met no record error, into
    /// a buffer with room for `room`: once payload is at the front, what the
    /// raw stream hands out there for as much room as the caller gives and
    /// the record still owes; nothing where no payload is reached.
    pub open spec fn counts(pre: Self, r: Result<usize, Error>, room: int) -> bool {
        let rest = through_headers(pre.spec_state(), pre.inner().remaining());
        r matches Ok(n) ==> n == if rest.refused is None && rest.owed() > 0 {
            pre.inner().grant(rest.taken, min(room, rest.owed()))
        } else {
            0
        }
    }

    /// The bytes that one read hands on: the raw bytes that follow the
    /// headers taken, in place and in order. `filled` is the caller's buffer
    /// after the read.
    pub open spec fn delivers(pre: Self, filled: Seq<u8>, r: Result<usize, Error>) -> bool {
        let raw = pre.inner().remaining();
        let rest = through_headers(pre.spec_state(), raw);
        r matches Ok(n) ==> n <= filled.len() && 0 <= rest.taken && rest.taken + n <= raw.len()
            && filled.take(n as int) == raw.subrange(rest.taken, rest.taken + n)
    }

    /// Whether the reader stands at a record boundary, before the whole
    /// header of a handshake record that is not too large and not empty.
    pub open spec fn at_whole_header(pre: Self) -> bool {
        let raw = pre.inner().remaining();
        &&& pre.spec_state() == RecordReaderState::AwaitingContentType
        &&& raw.len() >= 5
        &&& raw[0] == CONTENT_TYPE_HANDSHAKE
        &&& 1 <= be16(raw[3], raw[4]) <= MAX_RECORD_SIZE
    }

    /// The count of a read that starts before a whole header: what the raw
    /// stream hands out behind the five bytes of the header, for as much
    /// room as the caller gives and the record declares.
    pub open spec fn reads_past_header(pre: Self, r: Result<usize, Error>, room: int) -> bool {
        let raw = pre.inner().remaining();
        Self::at_whole_header(pre) ==> (r matches Ok(n) ==> n == pre.inner().grant(
            5,
            min(room, be16(raw[3], raw[4])),
        ))
    }

    /// Bytes handed on after headers were taken are the bytes behind all
    /// the headers taken.
    proof fn lemma_delivers_later(pre: Self, mid: Self, filled: Seq<u8>, r: Result<usize, Error>)
        requires
            Self::moved_on(pre, mid),
            Self::delivers(mid, filled, r),
            through_headers(mid.state, mid.reader.remaining()).taken == 0,
        ensures
            Self::delivers(pre, filled, r),
    {
        let raw = pre.reader.remaining();
        let k = raw.len() - mid.reader.remaining().len();
        if let Ok(n) = r {
            assert(raw.skip(k).subrange(0, n as int) =~= raw.subrange(k, k + n));
        }
    }

    /// A count that is right after headers were taken is right from before
    /// they were taken.
    proof fn lemma_counts_later(pre: Self, mid: Self, r: Result<usize, Error>, room: int)
        requires
            pre.inv(),
            mid.inv(),
            pre.reader.leads_to(&mid.reader),
            Self::moved_on(pre, mid),
            Self::counts(mid, r, room),
            0 <= through_headers(mid.state, mid.reader.remaining()).taken,
        ensures
            Self::counts(pre, r, room),
    {
        let rest = through_headers(mid.state, mid.reader.remaining());
        pre.reader.lemma_grant_later(&mid.reader, rest.taken, min(room, rest.owed()));
    }

    /// After a read, the reader is granted at each place what it was granted,
    /// before the read, as many bytes further on as the read handed out.
    proof fn lemma_grant_after_read(pre: Self, post: Self, r: Result<usize, Error>)
        requires
            pre.inv(),
            post.inv(),
            pre.failed is None,
            pre.reader.leads_to(&post.reader),
            Self::settles(pre, post, r),
        ensures
            forall|ahead: int, room: int|
                0 <= ahead ==> #[trigger] post.grant(ahead, room) == pre.grant(
                    ahead + match r {
                        Ok(n) => n as int,
                        Err(_) => 0,
                    },
                    room,
                ),
    {
        let raw = pre.reader.remaining();
        let rest = through_headers(pre.state, raw);
        let owed = rest.owed();
        let n: int = match r {
            Ok(n) => n as int,
            Err(_) => 0,
        };
        let d = rest.taken + n;
        assert forall|x: int, rm: int| 0 <= x implies #[trigger] post.reader.grant(x, rm)
            == pre.reader.grant(x + d, rm) by {
            pre.reader.lemma_grant_later(&post.reader, x, rm);
        }
        assert forall|ahead: int, room: int| 0 <= ahead implies #[trigger] post.grant(ahead, room)
            == pre.grant(ahead + n, room) by {
            if rest.refused is Some {
            } else if owed <= 0 {
                lemma_rest_is_at_rest(pre.state, raw);
            } else if n < owed {
                if ahead < owed - n {
                } else if raw.len() < rest.taken + owed {
                } else {
                    assert(raw.skip(d).skip(owed - n) =~= raw.skip(rest.taken + owed));
                    lemma_grant_shift(
                        pre.reader,
                        post.reader,
                        d,
                        RecordReaderState::AwaitingContentType,
                        raw.skip(rest.taken + owed),
                        owed - n,
                        ahead - (owed - n),
                        room,
                    );
                }
            } else {
                lemma_grant_shift(
                    pre.reader,
                    post.reader,
                    d,
                    RecordReaderState::AwaitingContentType,
                    raw.skip(d),
                    0,
                    ahead,
                    room,
                );
            }
        }
    }

    /// What holds of a reader `post` that has taken part of a header since
    /// `pre`: it will come to the same rest.
    spec fn moved_on(pre: Self, post: Self) -> bool {
        let raw = pre.reader.remaining();
        let k = raw.len() - post.reader.remaining().len();
        &&& 0 <= k
        &&& post.reader.remaining() == raw.skip(k)
        &&& through_headers(post.state, post.reader.remaining()).later(k) == through_headers(
            pre.state,
            raw,
        )
    }

    /// Headers taken after headers lead to the same rest.
    proof fn lemma_moved_on_twice(pre: Self, mid: Self, post: Self)
        requires
            Self::moved_on(pre, mid),
            Self::moved_on(mid, post),
        ensures
            Self::moved_on(pre, post),
    {
        let raw = pre.reader.remaining();
        let k = raw.len() - mid.reader.remaining().len();
        let j = mid.reader.remaining().len() - post.reader.remaining().len();
        assert(raw.skip(k).skip(j) =~= raw.skip(k + j));
    }

    /// A read that settles after headers were taken settles from before
    /// they were taken.
    proof fn lemma_settles_later(pre: Self, mid: Self, post: Self, r: Result<usize, Error>)
        requires
            Self::moved_on(pre, mid),
            Self::settles(mid, post, r),
        ensures
            Self::settles(pre, post, r),
    {
        let raw = pre.reader.remaining();
        let k = raw.len() - mid.reader.remaining().len();
        let rest = through_headers(mid.state, mid.reader.remaining());
        let n: int = match r {
            Ok(n) => n as int,
            Err(_) => 0,
        };
        assert(raw.skip(k).skip(rest.taken + n) =~= raw.skip(k + rest.taken + n));
    }

    /// What holds when part of a header was taken and the read goes on.
    spec fn header_taken(pre: Self, post: Self) -> bool {
        &&& post.inv()
        &&& pre.reader.leads_to(&post.reader)
        &&& post.failed is None
        &&& post.pending() == pre.pending()
        &&& Self::moved_on(pre, post)
        &&& post.reader.remaining().len() < pre.reader.remaining().len()
    }

    /// What holds when a read ends with `r` before any payload was reached.
    spec fn read_ended(pre: Self, post: Self, r: Result<usize, Error>) -> bool {
        &&& post.inv()
        &&& pre.reader.leads_to(&post.reader)
        &&& post.ending() == pre.ending()
        &&& post.remaining() == pre.remaining()
        &&& pre.remaining().len() == 0
        &&& Self::settles(pre, post, r)
        &&& through_headers(pre.state, pre.reader.remaining()).owed() <= 0
        &&& match r {
            Ok(n) => n == 0 && pre.ending() is None,
            Err(e) => pre.ending() == Some(e),
        }
    }

    /// At a record boundary: takes the content type and accepts none but
    /// `CONTENT_TYPE_HANDSHAKE`. The end of the raw stream here is the end of
    /// the payload.
    fn take_content_type(&mut self) -> (step: Option<Result<usize, Error>>)
        requires
            old(self).inv(),
            old(self).failed is None,
            old(self).state == RecordReaderState::AwaitingContentType,
        ensures
            match step {
                None => Self::header_taken(*old(self), *final(self)),
                Some(r) => Self::read_ended(*old(self), *final(self), r),
            },
    {
        let ghost raw = self.reader.remaining();
        let ghost ending = self.reader.ending();
        proof {
            assert(raw.skip(0) =~= raw);
        }
        let mut one = [0u8;1];
        match self.reader.read(&mut one) {
            Ok(n) => {
                if n == 0 {
                    return Some(Ok(0));
                }
                let content_type: u8 = one[0];
                if content_type != CONTENT_TYPE_HANDSHAKE {
                    let e = Error::MalformedRecord { content_type };
                    self.failed = Some(e);
                    return Some(Err(e));
                }
                proof {
                    if raw.len() >= 5 {
                        lemma_payloads_past_header(raw, ending);
                        assert(raw.skip(1).skip(4) =~= raw.skip(5));
                    }
                }
                self.state = RecordReaderState::AwaitingVersion { got: 0 };
                None
            },
            Err(e) => Some(Err(e)),
        }
    }

    /// Within the legacy version: takes what is missing of its two bytes and
    /// drops them.
    fn take_version(&mut self, got: u8) -> (step: Option<Result<usize, Error>>)
        requires
            old(self).inv(),
            old(self).failed is None,
            old(self).state == (RecordReaderState::AwaitingVersion { got }),
        ensures
            match step {
                None => Self::header_taken(*old(self), *final(self)),
                Some(r) => Self::read_ended(*old(self), *final(self), r),
            },
    {
        let ghost raw = self.reader.remaining();
        proof {
            assert(raw.skip(0) =~= raw);
        }
        match read_up_to_two(&mut self.reader, 2 - got) {
            Ok((n, _)) => {
                if n == 0 {
                    return Some(Err(Error::IoError(IoKind::UnexpectedEof)));
                }
                proof {
                    if raw.len() >= 4 - got {
                        assert(raw.skip(n as int).skip(4 - got - n) =~= raw.skip(4 - got));
                    }
                    if raw.len() >= 2 - got {
                        assert(raw.skip(n as int).skip(2 - got - n) =~= raw.skip(2 - got));
                    }
                }
                self.state = if got + n == 2 {
                    RecordReaderState::AwaitingLength { buf: [0, 0], got: 0 }
                } else {
                    RecordReaderState::AwaitingVersion { got: got + n }
                };
                None
            },
            Err(e) => Some(Err(e)),
        }
    }

    /// Within the length: takes what is missing of its two bytes; once both
    /// are there, refuses a length above `MAX_RECORD_SIZE` and passes over a
    /// record without payload.
    fn take_length(&mut self, buf: [u8; 2], got: u8) -> (step: Option<Result<usize, Error>>)
        requires
            old(self).inv(),
            old(self).failed is None,
            old(self).state == (RecordReaderState::AwaitingLength { buf, got }),
        ensures
            match step {
                None => Self::header_taken(*old(self), *final(self)),
                Some(r) => Self::read_ended(*old(self), *final(self), r),
            },
    {
        let ghost raw = self.reader.remaining();
        let ghost ending = self.reader.ending();
        proof {
            assert(raw.skip(0) =~= raw);
        }
        match read_up_to_two(&mut self.reader, 2 - got) {
            Ok((n, bytes)) => {
                if n == 0 {
                    return Some(Err(Error::IoError(IoKind::UnexpectedEof)));
                }
                let filled: [u8; 2] = if got == 0 {
                    bytes
                } else {
                    [buf[0], bytes[0]]
                };
                if got + n < 2 {
                    proof {
                        if raw.len() >= 2 {
                            assert(raw.skip(1).skip(1) =~= raw.skip(2));
                        }
                        assert(filled =~= [raw[0], 0u8]);
                    }
                    self.state = RecordReaderState::AwaitingLength { buf: filled, got: got + n };
                    return None;
                }
                let length: u16 = decode_u16(&filled);
                if length > MAX_RECORD_SIZE {
                    let e = Error::RecordTooLarge { length };
                    self.state = RecordReaderState::AwaitingContentType;
                    self.failed = Some(e);
                    return Some(Err(e));
                }
                proof {
                    lemma_payload_taken(0, 0, raw.skip(2 - got), ending);
                    assert(raw.skip(2 - got).skip(0) =~= raw.skip(2 - got));
                }
                self.state = if length == 0 {
                    RecordReaderState::AwaitingContentType
                } else {
                    RecordReaderState::InPayload { remaining: length }
                };
                None
            },
            Err(e) => Some(Err(e)),
        }
    }

    /// Within a payload: makes one read of the raw stream into `caller_buf`,
    /// capped at the `remaining` bytes that the record still owes.
    fn take_payload(&mut self, remaining: u16, caller_buf: &mut [u8]) -> (r: Result<usize, Error>)
        requires
            old(self).inv(),
            old(self).failed is None,
            old(self).state == (RecordReaderState::InPayload { remaining }),
        ensures
            final(self).inv(),
            old(self).reader.leads_to(&final(self).reader),
            Self::settles(*old(self), *final(self), r),
            Self::counts(*old(self), r, old(caller_buf)@.len() as int),
            Self::delivers(*old(self), final(caller_buf)@, r),
            through_headers(old(self).state, old(self).reader.remaining()).taken == 0,
            r is Err <==> old(self).remaining().len() == 0 && old(self).ending() is Some,
            final(self).ending() == old(self).ending(),
            match r {
                Ok(n) => {
                    &&& n <= old(caller_buf)@.len()
                    &&& n <= old(self).remaining().len()
                    &&& n == 0 ==> old(caller_buf)@.len() == 0 || (old(self).remaining().len() == 0
                        && old(self).ending() is None)
                    &&& final(caller_buf)@ == old(self).remaining().take(n as int) + old(
                        caller_buf,
                    )@.skip(n as int)
                    &&& final(self).remaining() == old(self).remaining().skip(n as int)
                },
                Err(e) => {
                    &&& old(self).remaining().len() == 0
                    &&& old(self).ending() == Some(e)
                    &&& final(caller_buf)@ == old(caller_buf)@
                    &&& final(self).remaining() == old(self).remaining()
                },
            },
    {
        let ghost raw = self.reader.remaining();
        let ghost ending = self.reader.ending();
        proof {
            assert(raw.skip(0) =~= raw);
        }
        let owed: usize = remaining as usize;
        let cap: usize = if caller_buf.len() < owed {
            caller_buf.len()
        } else {
            owed
        };
        let (head, tail) = caller_buf.split_at_mut(cap);
        let outcome = self.reader.read(head);
        match outcome {
            Ok(n) => {
                let left: u16 = remaining - (n as u16);
                self.state = if left == 0 {
                    RecordReaderState::AwaitingContentType
                } else {
                    RecordReaderState::InPayload { remaining: left }
                };
                proof {
                    lemma_payload_taken(remaining as int, n as int, raw, ending);
                    lemma_front_filled(old(caller_buf)@, cap as int, n as int, raw);
                    assert(caller_buf@.take(n as int) =~= raw.subrange(0, n as int));
                }
                Ok(n)
            },
            Err(e) => {
                proof {
                    lemma_front_filled(old(caller_buf)@, cap as int, 0, raw);
                }
                Err(e)
            },
        }
    }
}

/// A handshake record as its sender framed it.
pub ghost struct Record {
    pub version: (u8, u8),
    pub payload: Seq<u8>,
}

/// The bytes of one record on the wire: content type, legacy version,
/// big-endian length, payload.
pub open spec fn record_wire(record: Record) -> Seq<u8> {
    seq![
        CONTENT_TYPE_HANDSHAKE,
        record.version.0,
        record.version.1,
        (record.payload.len() / 256) as u8,
        (record.payload.len() % 256) as u8,
    ] + record.payload
}

/// The bytes of a run of records on the wire.
pub open spec fn records_wire(records: Seq<Record>) -> Seq<u8>
    decreases records.len(),
{
    if records.len() == 0 {
        Seq::empty()
    } else {
        record_wire(records[0]) + records_wire(records.skip(1))
    }
}

/// The payloads of a run of records, one after the other.
pub open spec fn records_payload(records: Seq<Record>) -> Seq<u8>
    decreases records.len(),
{
    if records.len() == 0 {
        Seq::empty()
    } else {
        records[0].payload + records_payload(records.skip(1))
    }
}

/// Reframing: the payload read out of a run of whole handshake records, none
/// larger than `MAX_RECORD_SIZE`, is the payloads of the records in order and
/// nothing else, and it ends as the raw stream does.
pub proof fn lemma_payloads_of_records(records: Seq<Record>, ending: Option<Error>)
    requires
        forall|i: int| 0 <= i < records.len() ==> #[trigger] records[i].payload.len() <= MAX_RECORD_SIZE,
    ensures
        handshake_payloads(records_wire(records), ending) == (Supply {
            bytes: records_payload(records),
            ending,
        }),
    decreases records.len(),
{
    if records.len() > 0 {
        let first = records[0];
        let rest = records.skip(1);
        let raw = records_wire(records);
        let length = first.payload.len() as int;
        assert(length <= MAX_RECORD_SIZE);
        assert(be16(raw[3], raw[4]) == length);
        assert(raw.subrange(5, 5 + length) =~= first.payload);
        assert(raw.skip(5 + length) =~= records_wire(rest));
        assert forall|i: int| 0 <= i < rest.len() implies #[trigger] rest[i].payload.len()
            <= MAX_RECORD_SIZE by {
            assert(rest[i] == records[i + 1]);
        }
        lemma_payloads_of_records(rest, ending);
    }
}

/// Reframing, said of a reader: one that stands at the start of a run of
/// whole handshake records, none larger than `MAX_RECORD_SIZE`, has exactly
/// their payloads to deliver, and then ends as its raw stream does.
pub proof fn lemma_reader_yields_payloads<R: ByteStream>(
    reader: HandshakeRecordReader<R>,
    records: Seq<Record>,
)
    requires
        reader.spec_state() == RecordReaderState::AwaitingContentType,
        reader.failure() is None,
        reader.inner().remaining() == records_wire(records),
        forall|i: int| 0 <= i < records.len() ==> #[trigger] records[i].payload.len() <= MAX_RECORD_SIZE,
    ensures
        reader.remaining() == records_payload(records),
        reader.ending() == reader.inner().ending(),
{
    lemma_payloads_of_records(records, reader.inner().ending());
}

} // verus!
