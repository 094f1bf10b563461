//! The inspection of a client stream: the whole way from raw bytes to the
//! host name, and what holds of it while the stream is still arriving.

use crate::client_hello::{
    agrees, first_host_name, host_name_in_body, host_name_in_extension, host_name_in_extensions,
    host_name_of, read_sni_host_name_from_client_hello, sni_host_name, EXTENSION_TYPE_SNI,
    FIXED_PART_LEN, HANDSHAKE_TYPE_CLIENT_HELLO, NAME_TYPE_HOST_NAME,
};
use crate::cursor::{past_vec_u16, past_vec_u8, ParserCursor};
use crate::error::{Error, IoKind};
use crate::record::{
    handshake_payloads, HandshakeRecordReader, CONTENT_TYPE_HANDSHAKE, MAX_RECORD_SIZE,
};
use crate::recording::RecordingReader;
use crate::stream::{ByteStream, Supply};
use crate::wire::{be16, be24};
use vstd::prelude::*;

verus! {

/// Reads the host name that `client` asks for and hands back, with it, the
/// client stream and the tape of all that was read from it on the way.
///
/// The tape followed by what the stream still holds is the stream as it was
/// given: record headers included, nothing skipped, nothing twice. So an
/// upstream that is sent the tape and then the rest of the stream sees what
/// the client sent.
pub fn inspect_stream<R: ByteStream>(client: R) -> (out: (Result<String, Error>, R, Vec<u8>))
    requires
        client.inv(),
    ensures
        agrees(out.0, sni_host_name(handshake_payloads(client.remaining(), client.ending()))),
        out.1.inv(),
        client.leads_to(&out.1),
        out.2@ + out.1.remaining() == client.remaining(),
{
    let recording = RecordingReader::new(client);
    let records = HandshakeRecordReader::new(recording);
    let mut cursor = ParserCursor::new(records);
    let found = read_sni_host_name_from_client_hello(&mut cursor);
    let (client, tape) = cursor.into_inner().into_inner().deconstruct();
    (found, client, tape)
}

/// How a client stream ends as far as it is known: for good once the client
/// has closed it, else for now.
pub open spec fn ending_so_far(closed: bool) -> Option<Error> {
    if closed {
        None
    } else {
        Some(Error::IoError(IoKind::WouldBlock))
    }
}

/// What the bytes received so far say of the host name. While the client
/// stream is open, `WouldBlock` stands for "not yet known".
pub open spec fn inspection(received: Seq<u8>, closed: bool) -> Result<Seq<char>, Error> {
    sni_host_name(handshake_payloads(received, ending_so_far(closed)))
}

/// Whether `later` may be what `earlier` turns out to be once more of the
/// stream has arrived: an `earlier` that ends for now is the front of it, any
/// other is all of it.
pub open spec fn grows_into(earlier: Supply, later: Supply) -> bool {
    if earlier.ending == Some(Error::IoError(IoKind::WouldBlock)) {
        earlier.bytes.len() <= later.bytes.len() && later.bytes.take(earlier.bytes.len() as int)
            == earlier.bytes
    } else {
        later == earlier
    }
}

/// Whether `found` is an answer, and not the report that more bytes are
/// needed.
pub open spec fn is_definite(found: Result<Seq<char>, Error>) -> bool {
    found != Err::<Seq<char>, Error>(Error::IoError(IoKind::WouldBlock))
}

/// Growth is kept when the same number of bytes is taken from both.
proof fn lemma_grows_advance(earlier: Supply, later: Supply, n: int)
    requires
        grows_into(earlier, later),
        0 <= n,
    ensures
        grows_into(earlier.advance(n), later.advance(n)),
{
    if earlier.ending == Some(Error::IoError(IoKind::WouldBlock)) {
        if n <= earlier.bytes.len() {
            let k = earlier.bytes.len() as int;
            assert(later.bytes.skip(n).take(k - n) =~= later.bytes.take(k).skip(n));
        } else {
            lemma_nothing_grows(earlier.advance(n), later.advance(n));
        }
    }
}

/// An empty supply that ends for now may grow into any supply.
proof fn lemma_nothing_grows(earlier: Supply, later: Supply)
    requires
        earlier.bytes.len() == 0,
        earlier.ending == Some(Error::IoError(IoKind::WouldBlock)),
    ensures
        grows_into(earlier, later),
{
    assert(later.bytes.take(0) =~= earlier.bytes);
}

/// Growth is kept when both are cut at the same bound.
proof fn lemma_grows_narrow(earlier: Supply, later: Supply, n: int)
    requires
        grows_into(earlier, later),
        0 <= n,
    ensures
        grows_into(earlier.narrow(n), later.narrow(n)),
{
    if earlier.ending == Some(Error::IoError(IoKind::WouldBlock)) {
        let k = earlier.bytes.len() as int;
        if n <= k {
            assert(later.bytes.take(n) =~= later.bytes.take(k).take(n));
        } else if n <= later.bytes.len() {
            assert(later.bytes.take(n).take(k) =~= later.bytes.take(k));
        }
    }
}

/// Growth is kept past a vector with a one-byte length.
proof fn lemma_grows_past_vec_u8(earlier: Supply, later: Supply)
    requires
        grows_into(earlier, later),
    ensures
        grows_into(past_vec_u8(earlier), past_vec_u8(later)),
{
    lemma_grows_advance(earlier, later, 1);
    if earlier.bytes.len() >= 1 {
        assert(later.bytes.take(earlier.bytes.len() as int)[0] == later.bytes[0]);
        lemma_grows_advance(earlier.advance(1), later.advance(1), earlier.bytes[0] as int);
    } else if earlier.ending == Some(Error::IoError(IoKind::WouldBlock)) {
        lemma_nothing_grows(past_vec_u8(earlier), past_vec_u8(later));
    }
}

/// Growth is kept past a vector with a two-byte length.
proof fn lemma_grows_past_vec_u16(earlier: Supply, later: Supply)
    requires
        grows_into(earlier, later),
    ensures
        grows_into(past_vec_u16(earlier), past_vec_u16(later)),
{
    lemma_grows_advance(earlier, later, 2);
    if earlier.bytes.len() >= 2 {
        assert(later.bytes.take(earlier.bytes.len() as int)[0] == later.bytes[0]);
        assert(later.bytes.take(earlier.bytes.len() as int)[1] == later.bytes[1]);
        lemma_grows_advance(
            earlier.advance(2),
            later.advance(2),
            be16(earlier.bytes[0], earlier.bytes[1]),
        );
    } else if earlier.ending == Some(Error::IoError(IoKind::WouldBlock)) {
        lemma_nothing_grows(past_vec_u16(earlier), past_vec_u16(later));
    }
}

/// The bytes that `earlier` holds are the first bytes of `later`.
proof fn lemma_grows_same_front(earlier: Supply, later: Supply, i: int)
    requires
        grows_into(earlier, later),
        0 <= i < earlier.bytes.len(),
    ensures
        i < later.bytes.len(),
        later.bytes[i] == earlier.bytes[i],
{
    assert(later.bytes.take(earlier.bytes.len() as int)[i] == later.bytes[i]);
}

/// A definite reading of a host name entry is final.
proof fn lemma_stable_host_name_of(earlier: Supply, later: Supply)
    requires
        grows_into(earlier, later),
        is_definite(host_name_of(earlier)),
    ensures
        host_name_of(later) == host_name_of(earlier),
{
    if earlier.ending == Some(Error::IoError(IoKind::WouldBlock)) {
        lemma_grows_same_front(earlier, later, 0);
        lemma_grows_same_front(earlier, later, 1);
        let len = be16(earlier.bytes[0], earlier.bytes[1]);
        let k = earlier.bytes.len() as int;
        assert(later.bytes.subrange(2, 2 + len) =~= later.bytes.take(k).subrange(2, 2 + len));
    }
}

/// A definite answer from a ServerNameList is final.
proof fn lemma_stable_first_host_name(earlier: Supply, later: Supply)
    requires
        grows_into(earlier, later),
        is_definite(first_host_name(earlier)),
    ensures
        first_host_name(later) == first_host_name(earlier),
    decreases earlier.bytes.len(),
{
    if earlier.ending == Some(Error::IoError(IoKind::WouldBlock)) {
        lemma_grows_same_front(earlier, later, 0);
        lemma_grows_advance(earlier, later, 1);
        if earlier.bytes[0] == NAME_TYPE_HOST_NAME {
            lemma_stable_host_name_of(earlier.advance(1), later.advance(1));
        } else {
            lemma_grows_past_vec_u16(earlier.advance(1), later.advance(1));
            lemma_stable_first_host_name(
                past_vec_u16(earlier.advance(1)),
                past_vec_u16(later.advance(1)),
            );
        }
    }
}

/// A definite answer from a `server_name` extension is final.
proof fn lemma_stable_in_extension(earlier: Supply, later: Supply)
    requires
        grows_into(earlier, later),
        is_definite(host_name_in_extension(earlier)),
    ensures
        host_name_in_extension(later) == host_name_in_extension(earlier),
{
    if earlier.ending == Some(Error::IoError(IoKind::WouldBlock)) {
        lemma_grows_same_front(earlier, later, 0);
        lemma_grows_same_front(earlier, later, 1);
        let len = be16(earlier.bytes[0], earlier.bytes[1]);
        lemma_grows_advance(earlier, later, 2);
        lemma_grows_narrow(earlier.advance(2), later.advance(2), len);
        lemma_stable_first_host_name(earlier.advance(2).narrow(len), later.advance(2).narrow(len));
    }
}

/// A definite answer from the extensions is final.
proof fn lemma_stable_in_extensions(earlier: Supply, later: Supply)
    requires
        grows_into(earlier, later),
        is_definite(host_name_in_extensions(earlier)),
    ensures
        host_name_in_extensions(later) == host_name_in_extensions(earlier),
    decreases earlier.bytes.len(),
{
    if earlier.ending == Some(Error::IoError(IoKind::WouldBlock)) {
        lemma_grows_same_front(earlier, later, 0);
        lemma_grows_same_front(earlier, later, 1);
        lemma_grows_same_front(earlier, later, 2);
        lemma_grows_same_front(earlier, later, 3);
        let ext_type = be16(earlier.bytes[0], earlier.bytes[1]);
        let ext_len = be16(earlier.bytes[2], earlier.bytes[3]);
        lemma_grows_advance(earlier, later, 4);
        if ext_type == EXTENSION_TYPE_SNI {
            lemma_grows_narrow(earlier.advance(4), later.advance(4), ext_len);
            lemma_stable_in_extension(
                earlier.advance(4).narrow(ext_len),
                later.advance(4).narrow(ext_len),
            );
        } else {
            lemma_grows_advance(earlier.advance(4), later.advance(4), ext_len);
            lemma_stable_in_extensions(
                earlier.advance(4).advance(ext_len),
                later.advance(4).advance(ext_len),
            );
        }
    }
}

/// A definite answer from the body of a ClientHello is final.
proof fn lemma_stable_in_body(earlier: Supply, later: Supply)
    requires
        grows_into(earlier, later),
        is_definite(host_name_in_body(earlier)),
    ensures
        host_name_in_body(later) == host_name_in_body(earlier),
{
    if earlier.ending == Some(Error::IoError(IoKind::WouldBlock)) {
        let fixed = FIXED_PART_LEN as int;
        lemma_grows_advance(earlier, later, fixed);
        lemma_grows_past_vec_u8(earlier.advance(fixed), later.advance(fixed));
        lemma_grows_past_vec_u16(
            past_vec_u8(earlier.advance(fixed)),
            past_vec_u8(later.advance(fixed)),
        );
        lemma_grows_past_vec_u8(
            past_vec_u16(past_vec_u8(earlier.advance(fixed))),
            past_vec_u16(past_vec_u8(later.advance(fixed))),
        );
        let a = past_vec_u8(past_vec_u16(past_vec_u8(earlier.advance(fixed))));
        let b = past_vec_u8(past_vec_u16(past_vec_u8(later.advance(fixed))));
        if a.ending == Some(Error::IoError(IoKind::WouldBlock)) {
            lemma_grows_same_front(a, b, 0);
            lemma_grows_same_front(a, b, 1);
        }
        let len = be16(a.bytes[0], a.bytes[1]);
        lemma_grows_advance(a, b, 2);
        lemma_grows_narrow(a.advance(2), b.advance(2), len);
        lemma_stable_in_extensions(a.advance(2).narrow(len), b.advance(2).narrow(len));
    }
}

/// A definite answer of the parser is final: it is the answer for every
/// supply that the one it was read from may grow into.
pub proof fn lemma_host_name_is_final(earlier: Supply, later: Supply)
    requires
        grows_into(earlier, later),
        is_definite(sni_host_name(earlier)),
    ensures
        sni_host_name(later) == sni_host_name(earlier),
{
    if earlier.ending == Some(Error::IoError(IoKind::WouldBlock)) {
        lemma_grows_same_front(earlier, later, 0);
        if earlier.bytes[0] == HANDSHAKE_TYPE_CLIENT_HELLO {
            lemma_grows_same_front(earlier, later, 1);
            lemma_grows_same_front(earlier, later, 2);
            lemma_grows_same_front(earlier, later, 3);
            let len = be24(earlier.bytes[1], earlier.bytes[2], earlier.bytes[3]);
            lemma_grows_advance(earlier, later, 4);
            lemma_grows_narrow(earlier.advance(4), later.advance(4), len);
            lemma_stable_in_body(earlier.advance(4).narrow(len), later.advance(4).narrow(len));
        }
    }
}

/// The payload of the raw bytes received so far grows into the payload of
/// any raw stream that starts with them.
pub proof fn lemma_payloads_grow(received: Seq<u8>, more: Seq<u8>, ending: Option<Error>)
    ensures
        grows_into(
            handshake_payloads(received, Some(Error::IoError(IoKind::WouldBlock))),
            handshake_payloads(received + more, ending),
        ),
    decreases received.len(),
{
    let pending = Some(Error::IoError(IoKind::WouldBlock));
    let whole = received + more;
    if received.len() == 0 {
        assert(handshake_payloads(whole, ending).bytes.take(0) =~= Seq::<u8>::empty());
    } else if received[0] != CONTENT_TYPE_HANDSHAKE {
    } else if received.len() < 5 {
        assert(handshake_payloads(whole, ending).bytes.take(0) =~= Seq::<u8>::empty());
    } else {
        let length = be16(received[3], received[4]);
        if length > MAX_RECORD_SIZE {
        } else if received.len() < 5 + length {
            let got = received.len() - 5;
            let later = handshake_payloads(whole, ending);
            if whole.len() < 5 + length {
                assert(whole.skip(5).take(got) =~= received.skip(5));
            } else {
                assert(later.bytes.take(got) =~= received.skip(5));
            }
        } else {
            let rest = received.skip(5 + length);
            assert(whole.skip(5 + length) =~= rest + more);
            assert(whole.subrange(5, 5 + length) =~= received.subrange(5, 5 + length));
            lemma_payloads_grow(rest, more, ending);
            let front = received.subrange(5, 5 + length);
            let a = handshake_payloads(rest, pending);
            let b = handshake_payloads(rest + more, ending);
            if a.ending == pending {
                assert((front + b.bytes).take((front.len() + a.bytes.len()) as int) =~= front
                    + b.bytes.take(a.bytes.len() as int));
            }
        }
    }
}

/// A definite answer of an inspection is final: once the bytes received tell
/// the host name, or tell that none will come, no byte that follows them and
/// no way in which the stream ends can change that.
pub proof fn lemma_inspection_is_final(
    received: Seq<u8>,
    more: Seq<u8>,
    closed: bool,
)
    requires
        is_definite(inspection(received, false)),
    ensures
        inspection(received + more, closed) == inspection(received, false),
{
    lemma_payloads_grow(received, more, ending_so_far(closed));
    lemma_host_name_is_final(
        handshake_payloads(received, ending_so_far(false)),
        handshake_payloads(received + more, ending_so_far(closed)),
    );
}

/// Whether a supply ends for good: its ending is not the report that no
/// byte can be had at present.
pub open spec fn ends_for_good(supply: Supply) -> bool {
    supply.ending != Some(Error::IoError(IoKind::WouldBlock))
}

/// The payload of a raw stream that ends for good ends for good.
proof fn lemma_payloads_end_for_good(raw: Seq<u8>, ending: Option<Error>)
    requires
        ending != Some(Error::IoError(IoKind::WouldBlock)),
    ensures
        ends_for_good(handshake_payloads(raw, ending)),
    decreases raw.len(),
{
    if raw.len() >= 5 {
        let length = be16(raw[3], raw[4]);
        if raw.len() >= 5 + length {
            lemma_payloads_end_for_good(raw.skip(5 + length), ending);
        }
    }
}

/// A ServerNameList that ends for good gets a definite answer.
proof fn lemma_definite_first_host_name(list: Supply)
    requires
        ends_for_good(list),
    ensures
        is_definite(first_host_name(list)),
    decreases list.bytes.len(),
{
    if list.bytes.len() >= 1 && list.bytes[0] != NAME_TYPE_HOST_NAME {
        lemma_definite_first_host_name(past_vec_u16(list.advance(1)));
    }
}

/// Extensions that end for good get a definite answer.
proof fn lemma_definite_in_extensions(extensions: Supply)
    requires
        ends_for_good(extensions),
    ensures
        is_definite(host_name_in_extensions(extensions)),
    decreases extensions.bytes.len(),
{
    if extensions.bytes.len() >= 4 {
        let ext_type = be16(extensions.bytes[0], extensions.bytes[1]);
        let ext_len = be16(extensions.bytes[2], extensions.bytes[3]);
        if ext_type == EXTENSION_TYPE_SNI {
            let body = extensions.advance(4).narrow(ext_len);
            if body.bytes.len() >= 2 {
                lemma_definite_first_host_name(
                    body.advance(2).narrow(be16(body.bytes[0], body.bytes[1])),
                );
            }
        } else {
            lemma_definite_in_extensions(extensions.advance(4).advance(ext_len));
        }
    }
}

/// A supply that ends for good gets a definite answer from the parser.
pub proof fn lemma_host_name_is_definite(hello: Supply)
    requires
        ends_for_good(hello),
    ensures
        is_definite(sni_host_name(hello)),
{
    if hello.bytes.len() >= 4 && hello.bytes[0] == HANDSHAKE_TYPE_CLIENT_HELLO {
        let body = hello.advance(4).narrow(
            be24(hello.bytes[1], hello.bytes[2], hello.bytes[3]),
        );
        let fields = past_vec_u8(
            past_vec_u16(past_vec_u8(body.advance(FIXED_PART_LEN as int))),
        );
        if fields.bytes.len() >= 2 {
            lemma_definite_in_extensions(
                fields.advance(2).narrow(be16(fields.bytes[0], fields.bytes[1])),
            );
        }
    }
}

/// Once the client has closed its stream, the inspection of what it sent is
/// definite: nothing is left to wait for.
pub proof fn lemma_closed_inspection_is_definite(received: Seq<u8>)
    ensures
        is_definite(inspection(received, true)),
{
    lemma_payloads_end_for_good(received, None);
    lemma_host_name_is_definite(handshake_payloads(received, None));
}

} // verus!
