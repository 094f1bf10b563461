use rspd::connection::{INSPECTION_TIMEOUT_SECS, UPSTREAM_PORT};
use rspd::{
    inspect_stream, Action, Connection, Error, Event, HostMapping, IoKind, MemoryStream, Phase,
};

fn record(payload: &[u8]) -> Vec<u8> {
    let mut wire = vec![22, 3, 1, (payload.len() / 256) as u8, (payload.len() % 256) as u8];
    wire.extend_from_slice(payload);
    wire
}

fn extension(ext_type: u16, body: &[u8]) -> Vec<u8> {
    let mut ext = vec![
        (ext_type / 256) as u8,
        (ext_type % 256) as u8,
        (body.len() / 256) as u8,
        (body.len() % 256) as u8,
    ];
    ext.extend_from_slice(body);
    ext
}

fn sni(name: &[u8]) -> Vec<u8> {
    let mut list = vec![0, (name.len() + 3) as u8, 0, 0, name.len() as u8];
    list.extend_from_slice(name);
    extension(0, &list)
}

fn client_hello(extensions: &[u8]) -> Vec<u8> {
    let mut body = vec![3, 3];
    body.extend_from_slice(&[0x5a; 32]);
    body.extend_from_slice(&[0, 0, 2, 0x13, 0x01, 1, 0]);
    body.push((extensions.len() / 256) as u8);
    body.push((extensions.len() % 256) as u8);
    body.extend_from_slice(extensions);
    let len = body.len();
    let mut msg = vec![1, 0, (len / 256) as u8, (len % 256) as u8];
    msg.extend(body);
    msg
}

/// A ClientHello of `total` bytes that asks for `name` in its last extension, behind padding.
fn padded_hello(name: &[u8], total: usize) -> Vec<u8> {
    let bare = client_hello(&sni(name)).len();
    let mut extensions = extension(21, &vec![0u8; total - bare - 4]);
    extensions.extend(sni(name));
    let hello = client_hello(&extensions);
    assert_eq!(hello.len(), total);
    hello
}

fn mapping() -> HostMapping {
    let mut table = HostMapping::new();
    table.insert("example.com".to_string(), "10.0.0.7".to_string());
    table.insert("other.example".to_string(), "backend.internal".to_string());
    table
}

#[test]
fn happy_path_dials_and_splices_the_whole_record() {
    let table = mapping();
    let wire = record(&padded_hello(b"example.com", 512));
    assert_eq!(wire.len(), 517);
    let mut conn = Connection::new();
    assert_eq!(conn.phase(), Phase::Inspecting);
    assert_eq!(conn.host_name(), None);
    let action = conn.handle(&table, Event::ClientData(wire.clone()));
    assert_eq!(action, Action::Dial { host: "10.0.0.7".to_string(), port: 443 });
    assert_eq!(conn.phase(), Phase::Dialing);
    assert_eq!(conn.host_name(), Some(&"example.com".to_string()));
    let action = conn.handle(&table, Event::UpstreamConnected);
    assert_eq!(action, Action::Splice { prefix: wire });
    assert_eq!(conn.phase(), Phase::Splicing);
}

#[test]
fn bytes_behind_the_hello_are_spliced_too() {
    let table = mapping();
    let mut wire = record(&padded_hello(b"example.com", 512));
    wire.extend_from_slice(&[20, 3, 3, 0, 1, 1, 23, 3, 3, 0, 2, 7, 7]);
    let mut conn = Connection::new();
    let action = conn.handle(&table, Event::ClientData(wire.clone()));
    assert_eq!(action, Action::Dial { host: "10.0.0.7".to_string(), port: 443 });
    assert_eq!(conn.handle(&table, Event::UpstreamConnected), Action::Splice { prefix: wire });
}

#[test]
fn split_record_keeps_both_headers() {
    let table = mapping();
    let hello = padded_hello(b"example.com", 512);
    let first = record(&hello[..100]);
    let second = record(&hello[100..]);
    let mut conn = Connection::new();
    assert_eq!(conn.handle(&table, Event::ClientData(first.clone())), Action::ReadClient);
    assert_eq!(conn.phase(), Phase::Inspecting);
    assert_eq!(
        conn.handle(&table, Event::ClientData(second.clone())),
        Action::Dial { host: "10.0.0.7".to_string(), port: 443 }
    );
    let mut all = first;
    all.extend(second);
    assert_eq!(all.len(), 522);
    assert_eq!(&all[..5], &[22, 3, 1, 0, 100]);
    assert_eq!(&all[105..110], &[22, 3, 1, 1, 156]);
    assert_eq!(conn.handle(&table, Event::UpstreamConnected), Action::Splice { prefix: all });
}

#[test]
fn split_record_with_the_name_in_the_first_part() {
    let table = mapping();
    let hello = client_hello(&sni(b"example.com"));
    let first = record(&hello[..hello.len() - 1]);
    let mut conn = Connection::new();
    assert_eq!(conn.handle(&table, Event::ClientData(first[..first.len() - 1].to_vec())), Action::ReadClient);
    let mut extensions = sni(b"example.com");
    extensions.extend(extension(21, &[0; 200]));
    let hello = client_hello(&extensions);
    let first = record(&hello[..100]);
    let mut conn = Connection::new();
    assert_eq!(
        conn.handle(&table, Event::ClientData(first.clone())),
        Action::Dial { host: "10.0.0.7".to_string(), port: 443 }
    );
    assert_eq!(conn.handle(&table, Event::UpstreamConnected), Action::Splice { prefix: first });
}

#[test]
fn bytes_may_come_one_at_a_time() {
    let table = mapping();
    let wire = record(&client_hello(&sni(b"other.example")));
    let mut conn = Connection::new();
    for (i, byte) in wire.iter().enumerate() {
        let action = conn.handle(&table, Event::ClientData(vec![*byte]));
        if i + 1 < wire.len() {
            assert_eq!(action, Action::ReadClient);
            assert_eq!(conn.host_name(), None);
        } else {
            assert_eq!(action, Action::Dial { host: "backend.internal".to_string(), port: 443 });
        }
    }
    assert_eq!(conn.handle(&table, Event::UpstreamConnected), Action::Splice { prefix: wire });
}

#[test]
fn the_decision_does_not_depend_on_how_the_bytes_arrive() {
    let table = mapping();
    let hellos = [
        client_hello(&sni(b"example.com")),
        client_hello(&sni(b"unlisted.example")),
        client_hello(&extension(43, &[2, 3, 4])),
        client_hello(&sni(&[0xff])),
        vec![2, 0, 0, 0],
    ];
    for hello in hellos.iter() {
        let mut wire = record(&hello[..10.min(hello.len())]);
        wire.extend(record(&hello[10.min(hello.len())..]));
        wire.extend_from_slice(&[23, 3, 3, 0, 1, 0]);
        let mut whole = Connection::new();
        let decision = whole.handle(&table, Event::ClientData(wire.clone()));
        assert_ne!(decision, Action::ReadClient);
        for cut in 0..wire.len() {
            let mut conn = Connection::new();
            let mut action = conn.handle(&table, Event::ClientData(wire[..cut].to_vec()));
            if action == Action::ReadClient {
                action = conn.handle(&table, Event::ClientData(wire[cut..].to_vec()));
            }
            assert_eq!(action, decision);
            assert_eq!(conn.host_name(), whole.host_name());
        }
    }
}

#[test]
fn host_name_is_known_before_the_hello_is_complete() {
    let table = mapping();
    let mut extensions = sni(b"example.com");
    extensions.extend(extension(21, &[0; 64]));
    let wire = record(&client_hello(&extensions));
    let seen = wire[..wire.len() - 30].to_vec();
    let mut conn = Connection::new();
    assert_eq!(
        conn.handle(&table, Event::ClientData(seen.clone())),
        Action::Dial { host: "10.0.0.7".to_string(), port: 443 }
    );
    assert_eq!(conn.handle(&table, Event::UpstreamConnected), Action::Splice { prefix: seen });
}

#[test]
fn wrong_content_type_closes_without_a_dial() {
    let table = mapping();
    let mut wire = record(&client_hello(&sni(b"example.com")));
    wire[0] = 23;
    let mut conn = Connection::new();
    assert_eq!(
        conn.handle(&table, Event::ClientData(wire)),
        Action::Close { error: Error::MalformedRecord { content_type: 23 } }
    );
    assert_eq!(conn.phase(), Phase::Closed);
    assert_eq!(
        conn.handle(&table, Event::UpstreamConnected),
        Action::Close { error: Error::IoError(IoKind::Other) }
    );
}

#[test]
fn oversize_record_closes() {
    let table = mapping();
    let mut conn = Connection::new();
    assert_eq!(
        conn.handle(&table, Event::ClientData(vec![22, 3, 1, 0x40, 0x01])),
        Action::Close { error: Error::RecordTooLarge { length: 0x4001 } }
    );
    assert_eq!(conn.phase(), Phase::Closed);
}

#[test]
fn hello_without_server_name_closes() {
    let table = mapping();
    let wire = record(&client_hello(&extension(43, &[2, 3, 4])));
    let mut conn = Connection::new();
    assert_eq!(
        conn.handle(&table, Event::ClientData(wire)),
        Action::Close { error: Error::NoSniHostName }
    );
}

#[test]
fn server_hello_closes() {
    let table = mapping();
    let mut hello = client_hello(&sni(b"example.com"));
    hello[0] = 2;
    let mut conn = Connection::new();
    assert_eq!(
        conn.handle(&table, Event::ClientData(record(&hello))),
        Action::Close { error: Error::NotClientHello { handshake_type: 2 } }
    );
}

#[test]
fn bad_host_name_closes() {
    let table = mapping();
    let wire = record(&client_hello(&sni(&[0xff, 0xfe])));
    let mut conn = Connection::new();
    assert_eq!(
        conn.handle(&table, Event::ClientData(wire)),
        Action::Close { error: Error::MalformedClientHello }
    );
}

#[test]
fn unknown_host_closes_without_a_dial() {
    let table = mapping();
    let wire = record(&client_hello(&sni(b"unlisted.example")));
    let mut conn = Connection::new();
    assert_eq!(
        conn.handle(&table, Event::ClientData(wire)),
        Action::Close { error: Error::UnknownHost }
    );
    assert_eq!(conn.phase(), Phase::Closed);
    assert_eq!(conn.host_name(), Some(&"unlisted.example".to_string()));
}

#[test]
fn host_names_are_matched_as_they_are() {
    let table = mapping();
    for name in ["Example.com", "example.com.", "www.example.com", "example.co"] {
        let wire = record(&client_hello(&sni(name.as_bytes())));
        let mut conn = Connection::new();
        assert_eq!(
            conn.handle(&table, Event::ClientData(wire)),
            Action::Close { error: Error::UnknownHost }
        );
    }
}

#[test]
fn stalled_client_times_out() {
    assert_eq!(INSPECTION_TIMEOUT_SECS, 5);
    let table = mapping();
    let mut conn = Connection::new();
    assert_eq!(conn.handle(&table, Event::ClientData(vec![22, 3, 1])), Action::ReadClient);
    assert_eq!(
        conn.handle(&table, Event::DeadlineExpired),
        Action::Close { error: Error::InspectionTimeout }
    );
    assert_eq!(conn.phase(), Phase::Closed);
}

#[test]
fn silent_client_times_out() {
    let table = mapping();
    let mut conn = Connection::new();
    assert_eq!(
        conn.handle(&table, Event::DeadlineExpired),
        Action::Close { error: Error::InspectionTimeout }
    );
}

#[test]
fn client_that_leaves_early_has_no_host_name() {
    let table = mapping();
    let wire = record(&client_hello(&sni(b"example.com")));
    let mut conn = Connection::new();
    assert_eq!(conn.handle(&table, Event::ClientData(wire[..40].to_vec())), Action::ReadClient);
    assert_eq!(
        conn.handle(&table, Event::ClientClosed),
        Action::Close { error: Error::NoSniHostName }
    );
    let mut conn = Connection::new();
    assert_eq!(
        conn.handle(&table, Event::ClientClosed),
        Action::Close { error: Error::NoSniHostName }
    );
}

#[test]
fn client_that_leaves_within_the_name_is_malformed() {
    let table = mapping();
    let wire = record(&client_hello(&sni(b"example.com")));
    let mut conn = Connection::new();
    let seen = wire[..wire.len() - 2].to_vec();
    assert_eq!(conn.handle(&table, Event::ClientData(seen)), Action::ReadClient);
    assert_eq!(
        conn.handle(&table, Event::ClientClosed),
        Action::Close { error: Error::MalformedClientHello }
    );
}

#[test]
fn client_read_failure_closes() {
    let table = mapping();
    let mut conn = Connection::new();
    assert_eq!(conn.handle(&table, Event::ClientData(vec![22])), Action::ReadClient);
    assert_eq!(
        conn.handle(&table, Event::ClientFailed(IoKind::Other)),
        Action::Close { error: Error::IoError(IoKind::Other) }
    );
    assert_eq!(conn.phase(), Phase::Closed);
}

#[test]
fn upstream_that_cannot_be_reached_closes() {
    let table = mapping();
    let wire = record(&client_hello(&sni(b"example.com")));
    let mut conn = Connection::new();
    assert_eq!(
        conn.handle(&table, Event::ClientData(wire)),
        Action::Dial { host: "10.0.0.7".to_string(), port: UPSTREAM_PORT }
    );
    assert_eq!(
        conn.handle(&table, Event::UpstreamFailed),
        Action::Close { error: Error::UpstreamDialFailed }
    );
    assert_eq!(conn.phase(), Phase::Closed);
}

#[test]
fn events_out_of_turn_close() {
    let table = mapping();
    let mut conn = Connection::new();
    assert_eq!(
        conn.handle(&table, Event::UpstreamConnected),
        Action::Close { error: Error::IoError(IoKind::Other) }
    );
    let wire = record(&client_hello(&sni(b"example.com")));
    let mut conn = Connection::new();
    conn.handle(&table, Event::ClientData(wire));
    assert_eq!(
        conn.handle(&table, Event::ClientData(vec![1])),
        Action::Close { error: Error::IoError(IoKind::Other) }
    );
    assert_eq!(conn.phase(), Phase::Closed);
}

#[test]
fn empty_data_changes_nothing() {
    let table = mapping();
    let mut conn = Connection::new();
    assert_eq!(conn.handle(&table, Event::ClientData(Vec::new())), Action::ReadClient);
    assert_eq!(conn.phase(), Phase::Inspecting);
}

#[test]
fn tape_and_rest_make_up_the_client_stream() {
    let hello = padded_hello(b"example.com", 512);
    let mut wire = record(&hello);
    wire.extend_from_slice(b"what follows the hello");
    for chunk in [1usize, 2, 7, 512, 4096] {
        let client = MemoryStream::chunked(wire.clone(), None, chunk);
        let (found, client, tape) = inspect_stream(client);
        assert_eq!(found, Ok("example.com".to_string()));
        assert_eq!(tape, wire[..tape.len()].to_vec());
        assert_eq!(client.position(), tape.len());
        assert!(tape.len() <= 517);
        let mut upstream = tape.clone();
        upstream.extend(client.unread());
        assert_eq!(upstream, wire);
    }
}

#[test]
fn tape_holds_what_a_failed_inspection_read() {
    let client = MemoryStream::new(vec![22, 3, 1, 0, 5, 2, 0, 0, 1, 0, 9, 9], None);
    let (found, client, tape) = inspect_stream(client);
    assert_eq!(found, Err(Error::NotClientHello { handshake_type: 2 }));
    assert_eq!(tape, vec![22, 3, 1, 0, 5, 2]);
    assert_eq!(client.unread(), vec![0, 0, 1, 0, 9, 9]);
}

#[test]
fn mapping_finds_what_was_inserted() {
    let mut table = HostMapping::new();
    assert_eq!(table.get(&"a.example".to_string()), None);
    table.insert("a.example".to_string(), "one".to_string());
    table.insert("b.example".to_string(), "two".to_string());
    assert_eq!(table.get(&"a.example".to_string()), Some(&"one".to_string()));
    assert_eq!(table.get(&"b.example".to_string()), Some(&"two".to_string()));
    assert_eq!(table.get(&"c.example".to_string()), None);
    assert_eq!(table.get(&"A.example".to_string()), None);
    assert_eq!(table.get(&"".to_string()), None);
}

#[test]
fn mapping_keeps_the_last_upstream_of_a_name() {
    let mut table = HostMapping::new();
    table.insert("a.example".to_string(), "one".to_string());
    table.insert("b.example".to_string(), "two".to_string());
    table.insert("a.example".to_string(), "three".to_string());
    assert_eq!(table.get(&"a.example".to_string()), Some(&"three".to_string()));
    assert_eq!(table.get(&"b.example".to_string()), Some(&"two".to_string()));
}
