use rspd::{
    read_sni_host_name_from_client_hello, Error, HandshakeRecordReader, IoKind, MemoryStream,
    ParserCursor,
};

fn record(payload: &[u8]) -> Vec<u8> {
    let mut wire = vec![22, 3, 1, (payload.len() / 256) as u8, (payload.len() % 256) as u8];
    wire.extend_from_slice(payload);
    wire
}

fn extension(ext_type: u16, body: &[u8]) -> Vec<u8> {
    let mut ext = vec![
        (ext_type / 256) as u8,
        (ext_type % 256) as u8,
        (body.len() / 256) as u8,
        (body.len() % 256) as u8,
    ];
    ext.extend_from_slice(body);
    ext
}

fn name_entry(name_type: u8, name: &[u8]) -> Vec<u8> {
    let mut entry = vec![name_type, (name.len() / 256) as u8, (name.len() % 256) as u8];
    entry.extend_from_slice(name);
    entry
}

fn server_name_extension(entries: &[u8]) -> Vec<u8> {
    let mut list = vec![(entries.len() / 256) as u8, (entries.len() % 256) as u8];
    list.extend_from_slice(entries);
    extension(0, &list)
}

fn sni(name: &[u8]) -> Vec<u8> {
    server_name_extension(&name_entry(0, name))
}

fn hello_body(extensions: Option<&[u8]>) -> Vec<u8> {
    let mut body = vec![3, 3];
    body.extend((0..32u8).map(|i| i.wrapping_mul(7)));
    body.extend_from_slice(&[4, 0xde, 0xad, 0xbe, 0xef]);
    body.extend_from_slice(&[0, 4, 0x13, 0x01, 0x13, 0x02]);
    body.extend_from_slice(&[1, 0]);
    if let Some(extensions) = extensions {
        body.push((extensions.len() / 256) as u8);
        body.push((extensions.len() % 256) as u8);
        body.extend_from_slice(extensions);
    }
    body
}

fn handshake(msg_type: u8, body: &[u8]) -> Vec<u8> {
    let len = body.len();
    let mut msg = vec![msg_type, (len / 65536) as u8, (len / 256 % 256) as u8, (len % 256) as u8];
    msg.extend_from_slice(body);
    msg
}

fn client_hello(extensions: &[u8]) -> Vec<u8> {
    handshake(1, &hello_body(Some(extensions)))
}

/// A ClientHello of `total` bytes that asks for `name`, filled up with a padding extension.
fn padded_hello(name: &[u8], total: usize) -> Vec<u8> {
    let bare = client_hello(&sni(name)).len();
    let mut extensions = sni(name);
    extensions.extend(extension(21, &vec![0u8; total - bare - 4]));
    let hello = client_hello(&extensions);
    assert_eq!(hello.len(), total);
    hello
}

fn parse(payload: Vec<u8>) -> Result<String, Error> {
    let mut cursor = ParserCursor::new(MemoryStream::new(payload, None));
    read_sni_host_name_from_client_hello(&mut cursor)
}

#[test]
fn host_name_in_one_record() {
    let hello = padded_hello(b"example.com", 512);
    let wire = record(&hello);
    assert_eq!(wire.len(), 517);
    let reader = HandshakeRecordReader::new(MemoryStream::new(wire, None));
    let mut cursor = ParserCursor::new(reader);
    assert_eq!(read_sni_host_name_from_client_hello(&mut cursor), Ok("example.com".to_string()));
}

#[test]
fn host_name_across_two_records() {
    let hello = padded_hello(b"example.com", 512);
    let mut wire = record(&hello[..100]);
    wire.extend(record(&hello[100..]));
    assert_eq!(wire.len(), 522);
    for chunk in [1usize, 3, 100, 1000] {
        let reader = HandshakeRecordReader::new(MemoryStream::chunked(wire.clone(), None, chunk));
        let mut cursor = ParserCursor::new(reader);
        assert_eq!(
            read_sni_host_name_from_client_hello(&mut cursor),
            Ok("example.com".to_string())
        );
    }
}

#[test]
fn host_name_split_inside_the_name() {
    let hello = client_hello(&sni(b"example.com"));
    let cut = hello.len() - 4;
    let mut wire = record(&hello[..cut]);
    wire.extend(record(&hello[cut..]));
    let reader = HandshakeRecordReader::new(MemoryStream::new(wire, None));
    let mut cursor = ParserCursor::new(reader);
    assert_eq!(read_sni_host_name_from_client_hello(&mut cursor), Ok("example.com".to_string()));
}

#[test]
fn no_server_name_extension() {
    let supported_versions = extension(43, &[2, 3, 4]);
    assert_eq!(parse(client_hello(&supported_versions)), Err(Error::NoSniHostName));
}

#[test]
fn no_extensions_at_all() {
    assert_eq!(parse(client_hello(&[])), Err(Error::NoSniHostName));
    assert_eq!(parse(handshake(1, &hello_body(None))), Err(Error::NoSniHostName));
}

#[test]
fn empty_stream_has_no_host_name() {
    assert_eq!(parse(Vec::new()), Err(Error::NoSniHostName));
}

#[test]
fn header_cut_short_has_no_host_name() {
    assert_eq!(parse(vec![1, 0, 0]), Err(Error::NoSniHostName));
    let hello = client_hello(&sni(b"example.com"));
    assert_eq!(parse(hello[..30].to_vec()), Err(Error::NoSniHostName));
}

#[test]
fn other_handshake_types_are_refused() {
    let mut msg = client_hello(&sni(b"example.com"));
    msg[0] = 2;
    assert_eq!(parse(msg), Err(Error::NotClientHello { handshake_type: 2 }));
    assert_eq!(parse(vec![0]), Err(Error::NotClientHello { handshake_type: 0 }));
}

#[test]
fn other_extensions_are_skipped() {
    let mut extensions = extension(43, &[2, 3, 4]);
    extensions.extend(extension(0xff01, &[]));
    extensions.extend(extension(10, &[0, 2, 0, 29]));
    extensions.extend(sni(b"example.org"));
    extensions.extend(extension(16, &[0, 3, 2, b'h', b'2']));
    assert_eq!(parse(client_hello(&extensions)), Ok("example.org".to_string()));
}

#[test]
fn other_name_types_are_skipped() {
    let mut entries = name_entry(7, b"ignored");
    entries.extend(name_entry(1, b""));
    entries.extend(name_entry(0, b"real.example"));
    assert_eq!(
        parse(client_hello(&server_name_extension(&entries))),
        Ok("real.example".to_string())
    );
}

#[test]
fn first_host_name_wins() {
    let mut entries = name_entry(0, b"first.example");
    entries.extend(name_entry(0, b"second.example"));
    assert_eq!(
        parse(client_hello(&server_name_extension(&entries))),
        Ok("first.example".to_string())
    );
}

#[test]
fn first_server_name_extension_decides() {
    let mut extensions = server_name_extension(&name_entry(3, b"x"));
    extensions.extend(sni(b"late.example"));
    assert_eq!(parse(client_hello(&extensions)), Err(Error::NoSniHostName));
    let mut extensions = sni(b"early.example");
    extensions.extend(sni(b"late.example"));
    assert_eq!(parse(client_hello(&extensions)), Ok("early.example".to_string()));
}

#[test]
fn server_name_list_without_host_name() {
    assert_eq!(parse(client_hello(&server_name_extension(&[]))), Err(Error::NoSniHostName));
    assert_eq!(parse(client_hello(&extension(0, &[]))), Err(Error::NoSniHostName));
    assert_eq!(
        parse(client_hello(&server_name_extension(&name_entry(5, b"abc")))),
        Err(Error::NoSniHostName)
    );
}

#[test]
fn host_name_that_is_not_utf8_is_malformed() {
    assert_eq!(parse(client_hello(&sni(&[b'a', 0xff, b'b']))), Err(Error::MalformedClientHello));
    assert_eq!(parse(client_hello(&sni(&[0xc3]))), Err(Error::MalformedClientHello));
    assert_eq!(parse(client_hello(&sni(&[0xed, 0xa0, 0x80]))), Err(Error::MalformedClientHello));
}

#[test]
fn host_name_beyond_ascii_is_decoded() {
    let name = "b\u{fc}cher.example";
    assert_eq!(name.len(), 15);
    assert_eq!(parse(client_hello(&sni(name.as_bytes()))), Ok(name.to_string()));
    let name = "\u{4f8b}\u{3048}.\u{1f600}";
    assert_eq!(parse(client_hello(&sni(name.as_bytes()))), Ok(name.to_string()));
}

#[test]
fn empty_host_name_is_malformed() {
    assert_eq!(parse(client_hello(&sni(b""))), Err(Error::MalformedClientHello));
}

#[test]
fn host_name_cut_short_is_malformed() {
    let hello = client_hello(&sni(b"example.com"));
    let len = hello.len();
    assert_eq!(parse(hello[..len - 1].to_vec()), Err(Error::MalformedClientHello));
    assert_eq!(parse(hello[..len - 11].to_vec()), Err(Error::MalformedClientHello));
    assert_eq!(parse(hello[..len - 12].to_vec()), Err(Error::MalformedClientHello));
    assert_eq!(parse(hello[..len - 13].to_vec()), Err(Error::MalformedClientHello));
    assert_eq!(parse(hello[..len - 14].to_vec()), Err(Error::NoSniHostName));
}

#[test]
fn longest_host_name_is_read() {
    let name = vec![b'a'; 65535 - 9];
    let got = parse(client_hello(&sni(&name))).unwrap();
    assert_eq!(got.len(), 65526);
    assert!(got.bytes().all(|b| b == b'a'));
}

#[test]
fn name_length_cannot_reach_past_the_list() {
    // The entry claims twelve bytes, the list holds eleven; a twelfth byte follows the list.
    let mut list = vec![0, 14, 0, 0, 12];
    list.extend_from_slice(b"example.com");
    let mut extensions = extension(0, &list);
    extensions.extend(extension(21, b"x"));
    assert_eq!(parse(client_hello(&extensions)), Err(Error::MalformedClientHello));
}

#[test]
fn list_length_cannot_reach_past_the_extension() {
    // The list claims to hold the whole entry, the extension ends within the name.
    let entry = name_entry(0, b"example.com");
    let mut list = vec![0, entry.len() as u8];
    list.extend_from_slice(&entry[..8]);
    let mut extensions = extension(0, &list);
    extensions.extend_from_slice(&entry[8..]);
    assert_eq!(parse(client_hello(&extensions)), Err(Error::MalformedClientHello));
}

#[test]
fn extension_cannot_reach_past_the_extensions() {
    let mut body = hello_body(None);
    let ext = sni(b"example.com");
    body.extend_from_slice(&[0, 10]);
    body.extend_from_slice(&ext);
    assert_eq!(parse(handshake(1, &body)), Err(Error::MalformedClientHello));
}

#[test]
fn nothing_is_read_past_the_message_length() {
    // The message declares fewer bytes than its fields claim; the bytes that would
    // complete the name lie beyond it, in the stream.
    let hello = client_hello(&sni(b"example.com"));
    let declared = hello.len() - 4 - 5;
    let mut stream_bytes = hello.clone();
    stream_bytes[1] = (declared / 65536) as u8;
    stream_bytes[2] = (declared / 256 % 256) as u8;
    stream_bytes[3] = (declared % 256) as u8;
    stream_bytes.extend_from_slice(&[1, 2, 3, 4]);
    let mut cursor = ParserCursor::new(MemoryStream::new(stream_bytes, None));
    assert_eq!(read_sni_host_name_from_client_hello(&mut cursor), Err(Error::MalformedClientHello));
    assert_eq!(cursor.into_inner().position(), 4 + declared);
}

#[test]
fn nothing_is_read_past_the_host_name() {
    let mut extensions = sni(b"example.com");
    extensions.extend(extension(21, &[0; 40]));
    let hello = client_hello(&extensions);
    let mut stream_bytes = hello.clone();
    stream_bytes.extend_from_slice(&[9; 10]);
    let mut cursor = ParserCursor::new(MemoryStream::new(stream_bytes, None));
    assert_eq!(read_sni_host_name_from_client_hello(&mut cursor), Ok("example.com".to_string()));
    assert_eq!(cursor.into_inner().position(), hello.len() - 44);
}

#[test]
fn vectors_longer_than_the_message_end_the_search() {
    let mut body = vec![3, 3];
    body.extend_from_slice(&[0; 32]);
    body.extend_from_slice(&[200, 1, 2, 3]);
    assert_eq!(parse(handshake(1, &body)), Err(Error::NoSniHostName));
}

#[test]
fn a_failure_of_the_stream_is_handed_on() {
    let hello = client_hello(&sni(b"example.com"));
    for cut in [0usize, 2, 20, 60, hello.len() - 3] {
        let stream = MemoryStream::new(hello[..cut].to_vec(), Some(Error::IoError(IoKind::Other)));
        let mut cursor = ParserCursor::new(stream);
        assert_eq!(
            read_sni_host_name_from_client_hello(&mut cursor),
            Err(Error::IoError(IoKind::Other))
        );
        let stream =
            MemoryStream::new(hello[..cut].to_vec(), Some(Error::IoError(IoKind::WouldBlock)));
        let mut cursor = ParserCursor::new(stream);
        assert_eq!(
            read_sni_host_name_from_client_hello(&mut cursor),
            Err(Error::IoError(IoKind::WouldBlock))
        );
    }
}

#[test]
fn a_record_error_is_handed_on() {
    let hello = client_hello(&sni(b"example.com"));
    let mut wire = record(&hello[..50]);
    wire.extend_from_slice(&[23, 3, 3, 0, 1, 0]);
    let reader = HandshakeRecordReader::new(MemoryStream::new(wire, None));
    let mut cursor = ParserCursor::new(reader);
    assert_eq!(
        read_sni_host_name_from_client_hello(&mut cursor),
        Err(Error::MalformedRecord { content_type: 23 })
    );
}

#[test]
fn a_record_header_cut_short_ends_the_search() {
    let hello = client_hello(&sni(b"example.com"));
    let mut wire = record(&hello[..50]);
    wire.extend_from_slice(&[22, 3]);
    let reader = HandshakeRecordReader::new(MemoryStream::new(wire, None));
    let mut cursor = ParserCursor::new(reader);
    assert_eq!(read_sni_host_name_from_client_hello(&mut cursor), Err(Error::NoSniHostName));
}
