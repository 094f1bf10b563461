//! The search for the host name in a ClientHello.

use crate::cursor::{
    past_vec_u16, past_vec_u8, read_exact, read_u16, read_u24, read_u8, skip, skip_vec_u16,
    skip_vec_u8, ParserCursor,
};
use crate::error::{Error, IoKind};
use crate::stream::{eof_error, lemma_advance_twice, ByteStream, Supply};
use crate::wire::{be16, be24};
use vstd::prelude::*;
use vstd::utf8::{decode_utf8, valid_utf8};

verus! {

/// The handshake type of a ClientHello.
pub const HANDSHAKE_TYPE_CLIENT_HELLO: u8 = 1;

/// The extension type of `server_name`.
pub const EXTENSION_TYPE_SNI: u16 = 0;

/// The name type of `host_name`.
pub const NAME_TYPE_HOST_NAME: u8 = 0;

/// The bytes of protocol version and random, which precede the session id.
pub const FIXED_PART_LEN: u64 = 34;

/// How a read error counts while a host name entry is still sought: the
/// end of the stream means that there is none.
pub open spec fn while_seeking(e: Error) -> Error {
    if e == Error::IoError(IoKind::UnexpectedEof) {
        Error::NoSniHostName
    } else {
        e
    }
}

/// How a read error counts within a host name entry: the end of the stream
/// means that the entry is cut short.
pub open spec fn within_entry(e: Error) -> Error {
    if e == Error::IoError(IoKind::UnexpectedEof) {
        Error::MalformedClientHello
    } else {
        e
    }
}

/// The host name of the entry whose length is at the front of `entry`.
pub open spec fn host_name_of(entry: Supply) -> Result<Seq<char>, Error> {
    if entry.bytes.len() < 2 {
        Err(within_entry(eof_error(entry.ending)))
    } else {
        let len = be16(entry.bytes[0], entry.bytes[1]);
        if entry.bytes.len() < 2 + len {
            Err(within_entry(eof_error(entry.ending)))
        } else if len == 0 || !valid_utf8(entry.bytes.subrange(2, 2 + len)) {
            Err(Error::MalformedClientHello)
        } else {
            Ok(decode_utf8(entry.bytes.subrange(2, 2 + len)))
        }
    }
}

/// The host name of the first `host_name` entry of the ServerNameList
/// `list`. Entries of other name types are passed over.
pub open spec fn first_host_name(list: Supply) -> Result<Seq<char>, Error>
    decreases list.bytes.len(),
{
    if list.bytes.len() < 1 {
        Err(while_seeking(eof_error(list.ending)))
    } else if list.bytes[0] == NAME_TYPE_HOST_NAME {
        host_name_of(list.advance(1))
    } else {
        first_host_name(past_vec_u16(list.advance(1)))
    }
}

/// The host name in the body of a `server_name` extension: a ServerNameList
/// behind its two-byte length.
pub open spec fn host_name_in_extension(body: Supply) -> Result<Seq<char>, Error> {
    if body.bytes.len() < 2 {
        Err(while_seeking(eof_error(body.ending)))
    } else {
        first_host_name(body.advance(2).narrow(be16(body.bytes[0], body.bytes[1])))
    }
}

/// The host name in the first `server_name` extension of `extensions`.
/// Extensions of other types are passed over.
pub open spec fn host_name_in_extensions(extensions: Supply) -> Result<Seq<char>, Error>
    decreases extensions.bytes.len(),
{
    if extensions.bytes.len() < 4 {
        Err(while_seeking(eof_error(extensions.ending)))
    } else {
        let ext_type = be16(extensions.bytes[0], extensions.bytes[1]);
        let ext_len = be16(extensions.bytes[2], extensions.bytes[3]);
        if ext_type == EXTENSION_TYPE_SNI {
            host_name_in_extension(extensions.advance(4).narrow(ext_len))
        } else {
            host_name_in_extensions(extensions.advance(4).advance(ext_len))
        }
    }
}

/// The host name in the body of a ClientHello: past version, random,
/// session id, cipher suites and compression methods come the extensions,
/// behind their two-byte length.
pub open spec fn host_name_in_body(body: Supply) -> Result<Seq<char>, Error> {
    let fields = past_vec_u8(past_vec_u16(past_vec_u8(body.advance(FIXED_PART_LEN as int))));
    if fields.bytes.len() < 2 {
        Err(while_seeking(eof_error(fields.ending)))
    } else {
        host_name_in_extensions(
            fields.advance(2).narrow(be16(fields.bytes[0], fields.bytes[1])),
        )
    }
}

/// The host name that the handshake stream `hello` asks for: that of the
/// first `host_name` entry of the first `server_name` extension of the
/// ClientHello at its front, where every declared length bounds all that
/// lies within it.
pub open spec fn sni_host_name(hello: Supply) -> Result<Seq<char>, Error> {
    if hello.bytes.len() < 1 {
        Err(while_seeking(eof_error(hello.ending)))
    } else if hello.bytes[0] != HANDSHAKE_TYPE_CLIENT_HELLO {
        Err(Error::NotClientHello { handshake_type: hello.bytes[0] })
    } else if hello.bytes.len() < 4 {
        Err(while_seeking(eof_error(hello.ending)))
    } else {
        host_name_in_body(
            hello.advance(4).narrow(be24(hello.bytes[1], hello.bytes[2], hello.bytes[3])),
        )
    }
}

/// The bytes of a handshake stream that belong to the ClientHello at its
/// front: header and declared length.
pub open spec fn hello_span(hello: Supply) -> int {
    if hello.bytes.len() >= 4 && hello.bytes[0] == HANDSHAKE_TYPE_CLIENT_HELLO {
        4 + be24(hello.bytes[1], hello.bytes[2], hello.bytes[3])
    } else {
        4
    }
}

/// Whether the parser's result `r` is what the model `expected` asks for.
pub open spec fn agrees(r: Result<String, Error>, expected: Result<Seq<char>, Error>) -> bool {
    match (r, expected) {
        (Ok(name), Ok(chars)) => name@ == chars,
        (Err(e), Err(x)) => e == x,
        _ => false,
    }
}

/// `while_seeking`, computed.
fn seeking(e: Error) -> (mapped: Error)
    ensures
        mapped == while_seeking(e),
{
    match e {
        Error::IoError(IoKind::UnexpectedEof) => Error::NoSniHostName,
        _ => e,
    }
}

/// `within_entry`, computed.
fn cut_short(e: Error) -> (mapped: Error)
    ensures
        mapped == within_entry(e),
{
    match e {
        Error::IoError(IoKind::UnexpectedEof) => Error::MalformedClientHello,
        _ => e,
    }
}

/// Decodes `bytes` with std's `String::from_utf8`, which is taken to accept
/// exactly the valid UTF-8 encodings and to yield the text that the bytes
/// encode.
#[verifier::external_body]
fn string_from_utf8(bytes: Vec<u8>) -> (text: Option<String>)
    ensures
        text is Some <==> valid_utf8(bytes@),
        text matches Some(s) ==> s@ == decode_utf8(bytes@),
{
    match String::from_utf8(bytes) {
        Ok(s) => Some(s),
        Err(_) => None,
    }
}

/// Reads the host name of an entry from its length on.
fn read_host_name<R: ByteStream>(reader: &mut ParserCursor<R>) -> (r: Result<String, Error>)
    requires
        old(reader).inv(),
    ensures
        final(reader).inv(),
        old(reader).confines(final(reader)),
        agrees(r, host_name_of(old(reader).window())),
{
    let ghost entry = reader.window();
    let name_len: u16 = match read_u16(reader) {
        Ok(v) => v,
        Err(e) => {
            proof {
                old(reader).lemma_reads_are_confined(reader);
            }
            return Err(cut_short(e));
        },
    };
    let ghost mid = *reader;
    let mut name_buf: Vec<u8> = vec![0u8; name_len as usize];
    let outcome = read_exact(reader, name_buf.as_mut_slice());
    proof {
        old(reader).lemma_leads_on(&mid, reader);
        old(reader).lemma_reads_are_confined(reader);
        if outcome is Ok {
            assert(entry.advance(2).bytes.take(name_len as int) =~= entry.bytes.subrange(
                2,
                2 + name_len,
            ));
        }
    }
    if let Err(e) = outcome {
        return Err(cut_short(e));
    }
    if name_len == 0 {
        return Err(Error::MalformedClientHello);
    }
    match string_from_utf8(name_buf) {
        Some(name) => Ok(name),
        None => Err(Error::MalformedClientHello),
    }
}

/// Walks a ServerNameList to its first `host_name` entry and reads the
/// name; entries of other name types are skipped.
fn read_first_host_name<R: ByteStream>(reader: &mut ParserCursor<R>) -> (r: Result<String, Error>)
    requires
        old(reader).inv(),
    ensures
        final(reader).inv(),
        old(reader).confines(final(reader)),
        agrees(r, first_host_name(old(reader).window())),
{
    proof {
        old(reader).lemma_leads_to_itself();
        old(reader).lemma_reads_are_confined(reader);
    }
    loop
        invariant
            reader.inv(),
            old(reader).confines(reader),
            first_host_name(reader.window()) == first_host_name(old(reader).window()),
        decreases reader.window().bytes.len(),
    {
        let ghost start = *reader;
        let name_type: u8 = match read_u8(reader) {
            Ok(v) => v,
            Err(e) => {
                proof {
                    old(reader).lemma_confines_reads(&start, reader);
                }
                return Err(seeking(e));
            },
        };
        proof {
            old(reader).lemma_confines_reads(&start, reader);
        }
        if name_type == NAME_TYPE_HOST_NAME {
            let ghost mid = *reader;
            let r = read_host_name(reader);
            proof {
                old(reader).lemma_confines_on(&mid, reader);
            }
            return r;
        }
        let ghost mid = *reader;
        let skipped = skip_vec_u16(reader);
        proof {
            old(reader).lemma_confines_reads(&mid, reader);
        }
        if let Err(e) = skipped {
            return Err(seeking(e));
        }
    }
}

/// Walks the extensions to the first `server_name` extension and reads the
/// host name in it; extensions of other types are skipped.
fn read_host_name_in_extensions<R: ByteStream>(reader: &mut ParserCursor<R>) -> (r: Result<
    String,
    Error,
>)
    requires
        old(reader).inv(),
    ensures
        final(reader).inv(),
        old(reader).confines(final(reader)),
        agrees(r, host_name_in_extensions(old(reader).window())),
{
    proof {
        old(reader).lemma_leads_to_itself();
        old(reader).lemma_reads_are_confined(reader);
    }
    loop
        invariant
            reader.inv(),
            old(reader).confines(reader),
            host_name_in_extensions(reader.window()) == host_name_in_extensions(
                old(reader).window(),
            ),
        decreases reader.window().bytes.len(),
    {
        let ghost start = *reader;
        let ext_type: u16 = match read_u16(reader) {
            Ok(v) => v,
            Err(e) => {
                proof {
                    old(reader).lemma_confines_reads(&start, reader);
                }
                return Err(seeking(e));
            },
        };
        let ghost past_type = *reader;
        let read_len = read_u16(reader);
        proof {
            start.lemma_leads_on(&past_type, reader);
            old(reader).lemma_confines_reads(&start, reader);
            lemma_advance_twice(start.window(), 2, 2);
        }
        let ext_len: u16 = match read_len {
            Ok(v) => v,
            Err(e) => {
                return Err(seeking(e));
            },
        };
        proof {
            let w = start.window();
            assert(w.advance(2).bytes[0] == w.bytes[2]);
            assert(w.advance(2).bytes[1] == w.bytes[3]);
        }
        if ext_type == EXTENSION_TYPE_SNI {
            let ghost mid = *reader;
            reader.narrow(ext_len as u64);
            proof {
                old(reader).lemma_confines_on(&mid, reader);
            }
            let ghost body = *reader;
            let list_len: u16 = match read_u16(reader) {
                Ok(v) => v,
                Err(e) => {
                    proof {
                        old(reader).lemma_confines_reads(&body, reader);
                    }
                    return Err(seeking(e));
                },
            };
            proof {
                old(reader).lemma_confines_reads(&body, reader);
            }
            let ghost past_len = *reader;
            reader.narrow(list_len as u64);
            proof {
                old(reader).lemma_confines_on(&past_len, reader);
            }
            let ghost list = *reader;
            let r = read_first_host_name(reader);
            proof {
                old(reader).lemma_confines_on(&list, reader);
            }
            return r;
        }
        let ghost mid = *reader;
        let skipped = skip(reader, ext_len as u64);
        proof {
            old(reader).lemma_confines_reads(&mid, reader);
        }
        if let Err(e) = skipped {
            return Err(seeking(e));
        }
    }
}

/// Reads the ClientHello at the front of `reader` as far as the host name
/// that it asks for, and returns the name.
///
/// Every length that the message declares bounds the cursor from there on,
/// so no field is read beyond the structure that holds it. The first
/// `host_name` entry of the first `server_name` extension decides. An end
/// of stream before such an entry is `NoSniHostName`, one within it
/// `MalformedClientHello`, as is a name that is empty or not valid UTF-8;
/// any other failure of the stream is handed on as it is.
pub fn read_sni_host_name_from_client_hello<R: ByteStream>(reader: &mut ParserCursor<R>) -> (r:
    Result<String, Error>)
    requires
        old(reader).inv(),
    ensures
        final(reader).inv(),
        agrees(r, sni_host_name(old(reader).window())),
        old(reader).confines(final(reader)),
        old(reader).taken_until(final(reader)) <= hello_span(old(reader).window()),
{
    let ghost hello = reader.window();
    let handshake_type: u8 = match read_u8(reader) {
        Ok(v) => v,
        Err(e) => {
            proof {
                old(reader).lemma_reads_are_confined(reader);
            }
            return Err(seeking(e));
        },
    };
    proof {
        old(reader).lemma_reads_are_confined(reader);
    }
    if handshake_type != HANDSHAKE_TYPE_CLIENT_HELLO {
        return Err(Error::NotClientHello { handshake_type });
    }
    let ghost past_type = *reader;
    let read_len = read_u24(reader);
    proof {
        old(reader).lemma_leads_on(&past_type, reader);
        old(reader).lemma_reads_are_confined(reader);
        lemma_advance_twice(hello, 1, 3);
    }
    let len: u32 = match read_len {
        Ok(v) => v,
        Err(e) => {
            return Err(seeking(e));
        },
    };
    proof {
        assert(hello.advance(1).bytes[0] == hello.bytes[1]);
        assert(hello.advance(1).bytes[1] == hello.bytes[2]);
        assert(hello.advance(1).bytes[2] == hello.bytes[3]);
    }
    let ghost past_header = *reader;
    reader.narrow(len as u64);
    proof {
        old(reader).lemma_confines_on(&past_header, reader);
    }
    let ghost body = *reader;
    let r = read_host_name_in_body(reader);
    proof {
        old(reader).lemma_confines_on(&body, reader);
    }
    r
}

/// Skips the fixed part and the three vectors of a ClientHello body, then
/// searches its extensions.
fn read_host_name_in_body<R: ByteStream>(reader: &mut ParserCursor<R>) -> (r: Result<
    String,
    Error,
>)
    requires
        old(reader).inv(),
    ensures
        final(reader).inv(),
        old(reader).confines(final(reader)),
        agrees(r, host_name_in_body(old(reader).window())),
{
    let ghost body = reader.window();
    let skipped = skip(reader, FIXED_PART_LEN);
    proof {
        old(reader).lemma_reads_are_confined(reader);
    }
    if let Err(e) = skipped {
        return Err(seeking(e));
    }
    // Session id.
    let ghost mid = *reader;
    let skipped = skip_vec_u8(reader);
    proof {
        old(reader).lemma_confines_reads(&mid, reader);
    }
    if let Err(e) = skipped {
        return Err(seeking(e));
    }
    // Cipher suites.
    let ghost mid = *reader;
    let skipped = skip_vec_u16(reader);
    proof {
        old(reader).lemma_confines_reads(&mid, reader);
    }
    if let Err(e) = skipped {
        return Err(seeking(e));
    }
    // Compression methods.
    let ghost mid = *reader;
    let skipped = skip_vec_u8(reader);
    proof {
        old(reader).lemma_confines_reads(&mid, reader);
    }
    if let Err(e) = skipped {
        return Err(seeking(e));
    }
    let ghost mid = *reader;
    let ext_len: u16 = match read_u16(reader) {
        Ok(v) => v,
        Err(e) => {
            proof {
                old(reader).lemma_confines_reads(&mid, reader);
            }
            return Err(seeking(e));
        },
    };
    proof {
        old(reader).lemma_confines_reads(&mid, reader);
    }
    let ghost mid = *reader;
    reader.narrow(ext_len as u64);
    proof {
        old(reader).lemma_confines_on(&mid, reader);
    }
    let ghost extensions = *reader;
    let r = read_host_name_in_extensions(reader);
    proof {
        old(reader).lemma_confines_on(&extensions, reader);
    }
    r
}

} // verus!
