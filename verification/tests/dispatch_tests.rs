use neorelay::blv::BlvMap;
use neorelay::codec::Codec;
use neorelay::commands::{connect_target, cover_page, encode_reply, get_info_string_from_key,
    handle_connect, handle_disconnect, handle_forward, handle_read, parse_request, reply_fits,
    set_failure_response, Command, ConnectOutcome};
use neorelay::errors::NeoError;
use neorelay::registry::Registry;
use neorelay::session::{ReadWait, Session};

/// The decoded form of the fixed cover blob.
const HELLO_PLAINTEXT: &[u8] =
    b"<!-- CZ7cUxtjM3zur0GDDQvtDPPU2acBDpNfgn/LY79DhV57tfk1XI9zY9KpkrlRsw -->";

fn client_request(fields: &[(i32, &[u8])]) -> Vec<u8> {
    let codec = Codec::new();
    let mut info = BlvMap::new();
    for (tag, value) in fields {
        info.insert(*tag, value.to_vec());
    }
    let frame = codec.blv_encode(&info);
    codec.base64_encode(&frame)
}

fn decode_reply(body: &[u8]) -> BlvMap {
    let codec = Codec::new();
    let frame = codec.base64_decode(body).expect("reply decodes");
    codec.blv_decode(&frame)
}

// An empty body is answered with the decoded cover page.
#[test]
fn empty_body_serves_the_cover_page() {
    let codec = Codec::new();
    assert!(parse_request(&codec, b"").is_none());
    assert_eq!(cover_page(&codec), HELLO_PLAINTEXT.to_vec());
}

#[test]
fn undecodable_body_serves_the_cover_page() {
    let codec = Codec::new();
    assert!(parse_request(&codec, b"garbage that is not base64!").is_none());
}

// CONNECT: the reply says OK and the registry holds the mark.
#[test]
fn connect_registers_the_mark() {
    let codec = Codec::new();
    let body = client_request(&[
        (2, b"CONNECT"),
        (3, b"m1"),
        (6, b"127.0.0.1"),
        (7, b"8080"),
    ]);
    let p = parse_request(&codec, &body).expect("a command frame parses");
    assert_eq!(p.cmd, Command::Connect);
    assert_eq!(p.mark, b"m1".to_vec());
    assert_eq!(connect_target(&p.info), b"127.0.0.1:8080".to_vec());
    assert_eq!(get_info_string_from_key(&p.info, neorelay::codec::MessageField::Cmd), "CONNECT");

    let mut registry = Registry::new();
    let mut rinfo = BlvMap::new();
    handle_connect(&p.mark, ConnectOutcome::Established(1), &mut registry, &mut rinfo);
    assert_eq!(rinfo.get(&4).map(|v| v.as_slice()), Some(b"OK".as_slice()));
    assert!(registry.contains_key(&b"m1".to_vec()));

    assert!(reply_fits(&rinfo));
    let reply = encode_reply(&codec, &rinfo);
    let decoded = decode_reply(&reply);
    assert_eq!(decoded.get(&4).map(|v| v.as_slice()), Some(b"OK".as_slice()));
    assert!(decoded.contains_key(&0) && decoded.contains_key(&39));
}

#[test]
fn connect_with_bad_address_fails_without_registering() {
    let mut registry = Registry::new();
    let mut rinfo = BlvMap::new();
    handle_connect(
        &b"m1".to_vec(),
        ConnectOutcome::BadAddress(b"invalid socket address syntax".to_vec()),
        &mut registry,
        &mut rinfo,
    );
    assert_eq!(rinfo.get(&4).map(|v| v.as_slice()), Some(b"FAIL".as_slice()));
    assert_eq!(
        rinfo.get(&5).map(|v| v.as_slice()),
        Some(b"Invalid address: invalid socket address syntax".as_slice())
    );
    assert!(!registry.contains_key(&b"m1".to_vec()));
}

#[test]
fn connect_failure_reports_the_io_error() {
    let mut registry = Registry::new();
    let mut rinfo = BlvMap::new();
    handle_connect(
        &b"m1".to_vec(),
        ConnectOutcome::Failed(b"connection refused".to_vec()),
        &mut registry,
        &mut rinfo,
    );
    assert_eq!(rinfo.get(&4).map(|v| v.as_slice()), Some(b"FAIL".as_slice()));
    assert_eq!(rinfo.get(&5).map(|v| v.as_slice()), Some(b"connection refused".as_slice()));
}

// FORWARD then READ: the write is accepted and the echoed bytes come
// back under the Data tag.
#[test]
fn forward_then_read_returns_the_bytes() {
    let codec = Codec::new();
    let mut registry = Registry::new();
    registry.insert(b"m1".to_vec(), 1);
    let mut session = Session::new();

    let body = client_request(&[(2, b"FORWARD"), (3, b"m1"), (1, b"ping")]);
    let p = parse_request(&codec, &body).expect("parses");
    assert_eq!(p.cmd, Command::Forward);

    // the session accepts the queued chunk
    let write_result = session.write_async(true);
    let mut rinfo = BlvMap::new();
    handle_forward(&p.info, &p.mark, &registry, Some(write_result), &mut rinfo);
    assert_eq!(rinfo.get(&4).map(|v| v.as_slice()), Some(b"OK".as_slice()));

    // an echo upstream has produced the same bytes by the next READ
    let read_result = session.read_async(b"ping".to_vec(), ReadWait::NotAwaited);
    let mut rinfo2 = BlvMap::new();
    handle_read(&p.mark, &registry, Some(session.is_closed()), Some(read_result), &mut rinfo2);
    assert_eq!(rinfo2.get(&4).map(|v| v.as_slice()), Some(b"OK".as_slice()));
    assert_eq!(rinfo2.get(&1).map(|v| v.as_slice()), Some(b"ping".as_slice()));
}

#[test]
fn forward_without_data_fails() {
    let codec = Codec::new();
    let mut registry = Registry::new();
    registry.insert(b"m1".to_vec(), 1);
    let body = client_request(&[(2, b"FORWARD"), (3, b"m1")]);
    let p = parse_request(&codec, &body).expect("parses");
    let mut rinfo = BlvMap::new();
    handle_forward(&p.info, &p.mark, &registry, None, &mut rinfo);
    assert_eq!(rinfo.get(&4).map(|v| v.as_slice()), Some(b"FAIL".as_slice()));
    assert_eq!(rinfo.get(&5).map(|v| v.as_slice()), Some(b"No data provided".as_slice()));
}

#[test]
fn forward_to_unknown_mark_fails() {
    let registry = Registry::new();
    let info = BlvMap::new();
    let mut rinfo = BlvMap::new();
    handle_forward(&info, &b"nope".to_vec(), &registry, None, &mut rinfo);
    assert_eq!(rinfo.get(&4).map(|v| v.as_slice()), Some(b"FAIL".as_slice()));
    assert_eq!(rinfo.get(&5).map(|v| v.as_slice()), Some(b"Session not found".as_slice()));
}

#[test]
fn forward_write_failure_reports_the_error() {
    let mut registry = Registry::new();
    registry.insert(b"m1".to_vec(), 1);
    let mut info = BlvMap::new();
    info.insert(1, b"ping".to_vec());
    let mut session = Session::new();
    session.close();
    let write_result = session.write_async(true);
    let mut rinfo = BlvMap::new();
    handle_forward(&info, &b"m1".to_vec(), &registry, Some(write_result), &mut rinfo);
    assert_eq!(rinfo.get(&4).map(|v| v.as_slice()), Some(b"FAIL".as_slice()));
    assert_eq!(rinfo.get(&5).map(|v| v.as_slice()), Some(b"Session is closed".as_slice()));
}

// READ with an unknown mark: FAIL / "Session not found".
#[test]
fn read_with_unknown_mark_fails() {
    let registry = Registry::new();
    let mut rinfo = BlvMap::new();
    handle_read(&b"ghost".to_vec(), &registry, None, None, &mut rinfo);
    assert_eq!(rinfo.get(&4).map(|v| v.as_slice()), Some(b"FAIL".as_slice()));
    assert_eq!(rinfo.get(&5).map(|v| v.as_slice()), Some(b"Session not found".as_slice()));
}

#[test]
fn read_on_a_closed_session_fails_up_front() {
    let mut registry = Registry::new();
    registry.insert(b"m1".to_vec(), 1);
    let mut rinfo = BlvMap::new();
    handle_read(&b"m1".to_vec(), &registry, Some(true), None, &mut rinfo);
    assert_eq!(rinfo.get(&4).map(|v| v.as_slice()), Some(b"FAIL".as_slice()));
    assert_eq!(rinfo.get(&5).map(|v| v.as_slice()), Some(b"Session is closed".as_slice()));
}

// A read error discovered mid-request leaves the status OK with no
// Data field.
#[test]
fn read_error_keeps_status_ok_without_data() {
    let mut registry = Registry::new();
    registry.insert(b"m1".to_vec(), 1);
    let mut rinfo = BlvMap::new();
    handle_read(
        &b"m1".to_vec(),
        &registry,
        Some(false),
        Some(Err(NeoError::SessionClosed)),
        &mut rinfo,
    );
    assert_eq!(rinfo.get(&4).map(|v| v.as_slice()), Some(b"OK".as_slice()));
    assert!(!rinfo.contains_key(&1));
}

// An empty successful read still sets an (empty) Data field.
#[test]
fn empty_read_sets_empty_data() {
    let mut registry = Registry::new();
    registry.insert(b"m1".to_vec(), 1);
    let mut rinfo = BlvMap::new();
    handle_read(&b"m1".to_vec(), &registry, Some(false), Some(Ok(Vec::new())), &mut rinfo);
    assert_eq!(rinfo.get(&4).map(|v| v.as_slice()), Some(b"OK".as_slice()));
    assert_eq!(rinfo.get(&1).map(|v| v.as_slice()), Some(b"".as_slice()));
}

// DISCONNECT: OK, the registry forgets the mark, and the session is
// closed by the caller.
#[test]
fn disconnect_removes_and_closes() {
    let mut registry = Registry::new();
    registry.insert(b"m1".to_vec(), 7);
    let mut session = Session::new();

    let mut rinfo = BlvMap::new();
    let removed = handle_disconnect(&b"m1".to_vec(), &mut registry, &mut rinfo);
    assert_eq!(removed, Some(7));
    assert!(!registry.contains_key(&b"m1".to_vec()));
    assert_eq!(rinfo.get(&4).map(|v| v.as_slice()), Some(b"OK".as_slice()));

    session.close();
    assert!(session.is_closed());
}

#[test]
fn disconnect_of_unknown_mark_still_says_ok() {
    let mut registry = Registry::new();
    let mut rinfo = BlvMap::new();
    let removed = handle_disconnect(&b"ghost".to_vec(), &mut registry, &mut rinfo);
    assert_eq!(removed, None);
    assert_eq!(rinfo.get(&4).map(|v| v.as_slice()), Some(b"OK".as_slice()));
}

// An unknown command is answered with the cover page and touches
// nothing.
#[test]
fn unknown_command_serves_the_cover_page() {
    let codec = Codec::new();
    let body = client_request(&[(2, b"NOPE"), (3, b"m1")]);
    let p = parse_request(&codec, &body).expect("parses");
    assert_eq!(p.cmd, Command::Unknown);
    assert_eq!(cover_page(&codec), HELLO_PLAINTEXT.to_vec());
}

#[test]
fn set_failure_response_sets_status_and_error() {
    let mut rinfo = BlvMap::new();
    set_failure_response(&mut rinfo, b"some reason".to_vec());
    assert_eq!(rinfo.get(&4).map(|v| v.as_slice()), Some(b"FAIL".as_slice()));
    assert_eq!(rinfo.get(&5).map(|v| v.as_slice()), Some(b"some reason".as_slice()));
}

#[test]
fn get_info_string_defaults_to_empty() {
    let info = BlvMap::new();
    assert_eq!(get_info_string_from_key(&info, neorelay::codec::MessageField::Cmd), "");
}

// A whole reply survives the wire: encode, then decode as the client
// would.
#[test]
fn reply_round_trip_through_the_codec() {
    let codec = Codec::new();
    let mut rinfo = BlvMap::new();
    rinfo.insert(4, b"OK".to_vec());
    rinfo.insert(1, b"stream bytes".to_vec());
    assert!(reply_fits(&rinfo));
    let body = encode_reply(&codec, &rinfo);
    let decoded = decode_reply(&body);
    assert_eq!(decoded.get(&4).map(|v| v.as_slice()), Some(b"OK".as_slice()));
    assert_eq!(decoded.get(&1).map(|v| v.as_slice()), Some(b"stream bytes".as_slice()));
    assert!(decoded.contains_key(&0) && decoded.contains_key(&39));
}
