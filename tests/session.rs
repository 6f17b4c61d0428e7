use std::collections::VecDeque;
use tusq::config::{default_pool_size, default_port, Config, Database};
use tusq::conn::{probe_verdict, PgConnState, Probe};
use tusq::error::ProtoError;
use tusq::handshake::{
    client_startup_step, server_handshake_step, server_parameters_payload, ClientPhase,
    ClientStartupStep, HandshakeStep,
};
use tusq::messages::{
    auth_ok, build_frame, md5_response, password_md5, password_message, ready_for_query,
    salted_input, server_parameter,
};
use tusq::params::ParamMap;
use tusq::proto::{ProtoAuth, ProtoMessage, ProtoParser, ProtoStartup, StartupMessage};
use tusq::session::{idle_step, transaction_step, IdleEvent, IdleStep, Relay, TxnEvent, TxnVerdict};
use tusq::wire::hex_lower;

fn frame(tag: u8, body: &[u8]) -> Vec<u8> {
    let mut out = vec![tag];
    out.extend_from_slice(&((body.len() + 4) as u32).to_be_bytes());
    out.extend_from_slice(body);
    out
}

fn client_startup(user: &str, database: &str) -> StartupMessage {
    let mut m = StartupMessage::new();
    m.protocol_version = 196608;
    m.parameters.insert("user".into(), user.into());
    m.parameters.insert("database".into(), database.into());
    m
}

fn auth_request(code: u32, extra: &[u8]) -> Vec<u8> {
    let mut body = code.to_be_bytes().to_vec();
    body.extend_from_slice(extra);
    frame(b'R', &body)
}

#[test]
fn auth_ok_and_ready_have_the_documented_bytes() {
    assert_eq!(auth_ok(), vec![b'R', 0, 0, 0, 8, 0, 0, 0, 0]);
    assert_eq!(ready_for_query(), vec![b'Z', 0, 0, 0, 5, b'I']);
}

#[test]
fn server_parameter_frames_key_and_value() {
    let m = server_parameter("client_encoding", "UTF8");
    let mut expected = vec![b'S', 0, 0, 0, 25];
    expected.extend_from_slice(b"client_encoding\0UTF8\0");
    assert_eq!(m, expected);
}

#[test]
fn cleartext_password_message_is_exact() {
    assert_eq!(password_message(b"123456"), b"p\0\0\0\x0b123456\0".to_vec());
    assert_eq!(build_frame(b'X', &[]), vec![b'X', 0, 0, 0, 4]);
}

#[test]
fn md5_password_message_is_exact() {
    let mut expected = vec![b'p', 0, 0, 0, 0x28];
    expected.extend_from_slice(b"md5c7342a0451b0de1a27c3e7e31776792e\0");
    assert_eq!(password_md5("testuser", "123456", &[0x17, 0xF5, 0x9E, 0x3E]), expected);
    assert_eq!(password_md5("someone", "secret", &[1, 2, 3, 4]).len(), 41);
}

#[test]
fn md5_helpers_transform_their_input() {
    assert_eq!(hex_lower(&[0x00, 0x0f, 0xa5, 0xff]), b"000fa5ff".to_vec());
    assert_eq!(salted_input(&[0xab, 0x01], &[9, 8]), vec![b'a', b'b', b'0', b'1', 9, 8]);
    assert_eq!(md5_response(&[0x12, 0xef]), b"md512ef".to_vec());
    // A different salt gives a different digest.
    assert_ne!(
        password_md5("testuser", "123456", &[0, 0, 0, 0]),
        password_md5("testuser", "123456", &[0x17, 0xF5, 0x9E, 0x3E])
    );
}

#[test]
fn parse_of_short_buffer_appends_nothing() {
    for len in 0..5 {
        let buf = vec![b'Q'; len];
        let mut msgs = VecDeque::new();
        let mut parser = ProtoParser::new();
        assert_eq!(parser.parse(&buf, &mut msgs), Ok(0));
        assert!(msgs.is_empty());
    }
}

#[test]
fn one_frame_then_trailing_bytes_leaves_the_tail_to_carry() {
    for trailing in 0..5usize {
        let mut buf = frame(b'C', b"SELECT 1\0");
        let frame_len = buf.len();
        buf.extend(std::iter::repeat(b'Z').take(trailing));
        let mut msgs = VecDeque::new();
        let mut parser = ProtoParser::new();
        assert_eq!(parser.parse(&buf, &mut msgs), Ok(buf.len() - trailing));
        assert_eq!(msgs.len(), 1);
        assert_eq!(msgs[0], ProtoMessage::Message('C', 0, frame_len - 1));
    }
}

#[test]
fn declared_length_below_four_is_an_invalid_frame() {
    let mut msgs = VecDeque::new();
    let mut parser = ProtoParser::new();
    assert_eq!(parser.parse(&[b'Q', 0, 0, 0, 3, 0], &mut msgs), Err(ProtoError::InvalidFrame));
    let mut parser = ProtoParser::new();
    assert_eq!(parser.parse(&[b'Q', 0xff, 0xff, 0xff, 0xff, 0], &mut msgs), Err(ProtoError::InvalidFrame));
}

#[test]
fn msg_size_reads_the_length_word() {
    assert_eq!(ProtoParser::msg_size(&[0, 0, 1, 2]), Some(258));
    assert_eq!(ProtoParser::msg_size(&[0, 0, 1]), None);
}

#[test]
fn descriptors_report_their_kind() {
    let m = ProtoMessage::Message('Q', 0, 5);
    assert!(m.is_complete() && !m.is_partial());
    assert_eq!(ProtoMessage::PartialComplete('D', 3).msg_type(), 'D');
    assert!(ProtoMessage::Partial('D', 0, 3).is_partial());
}

#[test]
fn decoders_read_whole_messages() {
    let z = ready_for_query();
    assert_eq!(ProtoMessage::Message('Z', 0, 5).transaction_type(&z), Some('I'));
    assert_eq!(ProtoMessage::Partial('Z', 0, 5).transaction_type(&z), None);

    let md5 = auth_request(5, &[1, 2, 3, 4]);
    match ProtoMessage::Message('R', 0, 12).authentication_type(&md5) {
        Some(ProtoAuth::AuthMD5Password(salt)) => assert_eq!(salt, &[1, 2, 3, 4]),
        other => panic!("unexpected {:?}", other),
    }
    let ok = auth_ok();
    assert_eq!(ProtoMessage::Message('R', 0, 8).authentication_type(&ok), Some(ProtoAuth::AuthOk));
    let clear = auth_request(3, &[]);
    assert_eq!(
        ProtoMessage::Message('R', 0, 8).authentication_type(&clear),
        Some(ProtoAuth::AuthCleartextPassword)
    );
    let sasl = auth_request(10, &[]);
    assert_eq!(ProtoMessage::Message('R', 0, 8).authentication_type(&sasl), None);

    let s = server_parameter("server_version", "14.2");
    assert_eq!(
        ProtoMessage::Message('S', 0, s.len() - 1).server_parameter(&s),
        Some(("server_version".to_string(), "14.2".to_string()))
    );

    let e = frame(b'E', b"SERROR\0Mbad password\0\0");
    let text = ProtoMessage::Message('E', 0, e.len() - 1).error_message(&e).unwrap().unwrap();
    assert_eq!(text, "ERROR\0Mbad password\0");
    let bad = frame(b'E', &[b'S', 0xff, 0, 0]);
    assert_eq!(ProtoMessage::Message('E', 0, bad.len() - 1).error_message(&bad), Err(ProtoError::InvalidText));
    assert_eq!(ProtoMessage::Message('Q', 0, 4).error_message(&e), Ok(None));
}

#[test]
fn startup_round_trip_gives_the_message_back() {
    let mut m = client_startup("postgres", "my_db_alias");
    m.parameters.insert("application_name".into(), "psql".into());
    let bytes = m.as_bytes();
    let mut parser = ProtoParser::new();
    let (n, parsed) = parser.parse_startup(&bytes).unwrap();
    assert_eq!(n, bytes.len());
    assert_eq!(parsed, Some(ProtoStartup::Message(m.clone())));
    assert_eq!(m.database_name(), Some("my_db_alias".to_string()));
}

#[test]
fn startup_special_requests_consume_fixed_lengths() {
    let mut parser = ProtoParser::new();
    let ssl = [0, 0, 0, 8, 0x04, 0xd2, 0x16, 0x2f];
    assert_eq!(parser.parse_startup(&ssl), Ok((8, Some(ProtoStartup::SSLRequest))));
    let cancel = [0, 0, 0, 16, 0x04, 0xd2, 0x16, 0x2e, 0, 0, 0, 1, 0, 0, 0, 2];
    assert_eq!(parser.parse_startup(&cancel), Ok((16, Some(ProtoStartup::CancelRequest))));
    assert_eq!(parser.parse_startup(&cancel[..7]), Ok((0, None)));
    assert_eq!(parser.parse_startup(&cancel[..12]), Ok((0, None)));
}

#[test]
fn malformed_startup_is_refused() {
    let mut parser = ProtoParser::new();
    // Length below the smallest regular message.
    assert_eq!(parser.parse_startup(&[0, 0, 0, 8, 0, 3, 0, 0]), Err(ProtoError::InvalidStartup));
    // Value without its NUL before the end.
    assert_eq!(
        parser.parse_startup(&[0, 0, 0, 12, 0, 3, 0, 0, b'a', 0, b'b', 0]),
        Err(ProtoError::InvalidStartup)
    );
    // Invalid UTF-8 in a name.
    assert_eq!(
        parser.parse_startup(&[0, 0, 0, 13, 0, 3, 0, 0, 0xff, 0, b'b', 0, 0]),
        Err(ProtoError::InvalidStartup)
    );
    // Not all of it yet.
    assert_eq!(parser.parse_startup(&[0, 0, 0, 13, 0, 3, 0, 0, b'a', 0]), Ok((0, None)));
}

#[test]
fn read_and_parse_accounts_for_every_byte() {
    let stream: Vec<u8> = [frame(b'T', b"abc"), frame(b'D', b"0123456789"), frame(b'C', b"x\0")].concat();
    for cut in [1usize, 3, 5, 9, 13, 20] {
        let mut conn = PgConnState::new();
        let mut parsed = 0;
        let mut chunks_seen = 0;
        for chunk in stream.chunks(cut) {
            parsed += conn.read_and_parse(chunk).unwrap();
            chunks_seen += chunk.len();
        }
        assert_eq!(parsed + conn.incomplete_buffer.len(), chunks_seen);
        assert!(conn.incomplete_buffer.len() <= 4);
    }
}

#[test]
fn split_row_description_relays_in_order() {
    let mut body = vec![0u8; 45];
    body[0] = 7;
    let msg = frame(b'D', &body);
    assert_eq!(msg.len(), 50);
    let mut server = PgConnState::new();
    let n1 = server.read_and_parse(&msg[..30]).unwrap();
    assert_eq!(n1, 30);
    assert_eq!(server.msgs.pop_front(), Some(ProtoMessage::Partial('D', 0, 29)));
    let first = server.buffer[..n1].to_vec();
    let n2 = server.read_and_parse(&msg[30..]).unwrap();
    assert_eq!(n2, 20);
    assert_eq!(server.msgs.pop_front(), Some(ProtoMessage::PartialComplete('D', 19)));
    let relayed = [first, server.buffer[..n2].to_vec()].concat();
    assert_eq!(relayed, msg);
}

#[test]
fn a_zero_byte_read_breaks_the_connection() {
    let mut conn = PgConnState::new();
    assert_eq!(conn.read_and_parse(&[]), Err(ProtoError::Disconnected));
    assert!(conn.is_broken);
    assert!(conn.should_retire());
}

#[test]
fn probes_decide_validity() {
    assert_eq!(probe_verdict(Probe::WouldBlock), Ok(true));
    assert_eq!(probe_verdict(Probe::Bytes(0)), Err(ProtoError::Closed));
    assert_eq!(probe_verdict(Probe::Bytes(3)), Err(ProtoError::Unexpected));
    assert_eq!(probe_verdict(Probe::Failed), Err(ProtoError::Closed));
}

#[test]
fn ssl_request_is_denied_then_startup_proceeds() {
    let mut phase = ClientPhase::AwaitStartup;
    let mut client = PgConnState::new();
    let ssl = [0, 0, 0, 8, 0x04, 0xd2, 0x16, 0x2f];
    match client_startup_step(&mut phase, &mut client, &ssl) {
        ClientStartupStep::Reply(bytes) => assert_eq!(bytes, vec![b'N']),
        _ => panic!("expected the TLS refusal"),
    }
    assert_eq!(phase, ClientPhase::AwaitPostSslStartup);
    let startup = client_startup("postgres", "my_db_alias").as_bytes();
    match client_startup_step(&mut phase, &mut client, &startup) {
        ClientStartupStep::Accepted(m) => assert_eq!(m, client_startup("postgres", "my_db_alias")),
        _ => panic!("expected the startup message"),
    }
    assert_eq!(client.database_name(), Some("my_db_alias".to_string()));
}

#[test]
fn a_split_startup_packet_is_resumed() {
    let mut phase = ClientPhase::AwaitStartup;
    let mut client = PgConnState::new();
    let startup = client_startup("postgres", "my_db_alias").as_bytes();
    assert!(matches!(client_startup_step(&mut phase, &mut client, &startup[..5]), ClientStartupStep::NeedMore));
    assert!(matches!(client_startup_step(&mut phase, &mut client, &startup[5..20]), ClientStartupStep::NeedMore));
    match client_startup_step(&mut phase, &mut client, &startup[20..]) {
        ClientStartupStep::Accepted(m) => assert_eq!(m, client_startup("postgres", "my_db_alias")),
        _ => panic!("expected the startup message"),
    }
    assert!(client.startup_buffer.is_empty());
}

#[test]
fn checked_encoding_matches_as_bytes() {
    let m = client_startup("postgres", "my_db_alias");
    assert_eq!(m.to_bytes_checked(), Some(m.as_bytes()));
}

#[test]
fn cancel_and_repeated_ssl_requests_fail() {
    let mut phase = ClientPhase::AwaitStartup;
    let mut client = PgConnState::new();
    let cancel = [0, 0, 0, 16, 0x04, 0xd2, 0x16, 0x2e, 0, 0, 0, 1, 0, 0, 0, 2];
    assert!(matches!(
        client_startup_step(&mut phase, &mut client, &cancel),
        ClientStartupStep::Failed(ProtoError::Unsupported)
    ));
    let mut phase = ClientPhase::AwaitPostSslStartup;
    let ssl = [0, 0, 0, 8, 0x04, 0xd2, 0x16, 0x2f];
    assert!(matches!(
        client_startup_step(&mut phase, &mut client, &ssl),
        ClientStartupStep::Failed(ProtoError::InvalidStartup)
    ));
    let mut no_db = StartupMessage::new();
    no_db.protocol_version = 196608;
    no_db.parameters.insert("user".into(), "postgres".into());
    let mut phase = ClientPhase::AwaitStartup;
    assert!(matches!(
        client_startup_step(&mut phase, &mut client, &no_db.as_bytes()),
        ClientStartupStep::Failed(ProtoError::InvalidStartup)
    ));
    assert!(matches!(
        client_startup_step(&mut phase, &mut client, &[]),
        ClientStartupStep::Failed(ProtoError::Disconnected)
    ));
}

fn example_database() -> Database {
    Config::example().databases[0].1.clone()
}

fn drive_handshake(server: &mut PgConnState, db: &Database) -> Vec<Vec<u8>> {
    let mut sent = vec![];
    loop {
        match server_handshake_step(server, db) {
            HandshakeStep::NeedMore => return sent,
            HandshakeStep::Continue => {}
            HandshakeStep::Send(bytes) => sent.push(bytes),
            HandshakeStep::Ready => {
                sent.push(b"READY".to_vec());
                return sent;
            }
            HandshakeStep::Failed(e) => panic!("handshake failed: {:?}", e),
        }
    }
}

#[test]
fn md5_authentication_to_backend() {
    let db = example_database();
    let mut server = PgConnState::new();
    server.read_and_parse(&auth_request(5, &[0x17, 0xF5, 0x9E, 0x3E])).unwrap();
    let sent = drive_handshake(&mut server, &db);
    assert_eq!(sent, vec![password_md5("testuser", "123456", &[0x17, 0xF5, 0x9E, 0x3E])]);

    let reply = [
        auth_ok(),
        server_parameter("server_version", "14.2"),
        server_parameter("client_encoding", "UTF8"),
        ready_for_query(),
    ]
    .concat();
    server.read_and_parse(&reply).unwrap();
    let sent = drive_handshake(&mut server, &db);
    assert_eq!(sent, vec![b"READY".to_vec()]);
    assert_eq!(server.server_parameters.get("server_version"), Some(&"14.2".to_string()));
    assert_eq!(server.server_parameters.get("client_encoding"), Some(&"UTF8".to_string()));
    assert!(!server.should_retire());
}

#[test]
fn cleartext_authentication_sends_the_password() {
    let db = example_database();
    let mut server = PgConnState::new();
    server.read_and_parse(&auth_request(3, &[])).unwrap();
    assert_eq!(drive_handshake(&mut server, &db), vec![password_message(b"123456")]);
}

#[test]
fn handshake_failures_are_reported() {
    let mut db = example_database();
    db.password = None;
    let mut server = PgConnState::new();
    server.read_and_parse(&auth_request(3, &[])).unwrap();
    assert!(matches!(server_handshake_step(&mut server, &db), HandshakeStep::Failed(ProtoError::MissingPassword)));

    let mut server = PgConnState::new();
    server.read_and_parse(&auth_request(10, &[])).unwrap();
    assert!(matches!(server_handshake_step(&mut server, &db), HandshakeStep::Failed(ProtoError::UnsupportedAuth)));

    let mut server = PgConnState::new();
    server.read_and_parse(&frame(b'E', &[b'S', 0xff, 0, 0])).unwrap();
    match server_handshake_step(&mut server, &db) {
        HandshakeStep::Failed(ProtoError::UpstreamError(text)) => assert_eq!(text, ""),
        _ => panic!("expected the upstream error"),
    }

    let mut server = PgConnState::new();
    server.read_and_parse(&frame(b'E', b"SFATAL\0\0")).unwrap();
    match server_handshake_step(&mut server, &db) {
        HandshakeStep::Failed(ProtoError::UpstreamError(text)) => assert_eq!(text, "FATAL\0"),
        _ => panic!("expected the upstream error"),
    }
}

#[test]
fn happy_path_transaction_returns_the_backend() {
    // Client startup.
    let mut phase = ClientPhase::AwaitStartup;
    let mut client = PgConnState::new();
    let startup = client_startup("postgres", "my_db_alias").as_bytes();
    let sm = match client_startup_step(&mut phase, &mut client, &startup) {
        ClientStartupStep::Accepted(m) => m,
        _ => panic!("expected the startup message"),
    };
    let config = Config::example();
    let db = config.database_for(&sm).unwrap();
    assert_eq!(db.dbname, "dispatch_development");
    assert_eq!(config.pool_size(&sm), Ok(25));
    let upstream = db.upstream_startup(&sm);
    assert_eq!(upstream.parameters.get("database"), Some(&"dispatch_development".to_string()));
    assert_eq!(upstream.parameters.get("user"), Some(&"testuser".to_string()));
    assert_eq!(upstream.parameters.get("application_name"), Some(&"tusq".to_string()));

    // The backend's parameters go to the client verbatim, in key order.
    let mut params = ParamMap::new();
    params.insert("server_version".into(), "14.2".into());
    params.insert("client_encoding".into(), "UTF8".into());
    let payload = server_parameters_payload(&params).unwrap();
    assert_eq!(
        payload,
        [server_parameter("client_encoding", "UTF8"), server_parameter("server_version", "14.2")].concat()
    );

    // Query.
    let query = frame(b'Q', b"SELECT 1\0");
    let n = client.read_and_parse(&query).unwrap();
    match idle_step(&mut client, IdleEvent::ClientRead(Ok(n))) {
        IdleStep::Begin(k) => assert_eq!(k, query.len()),
        _ => panic!("expected a transaction to begin"),
    }
    let mut server = PgConnState::new();
    server.begin_transaction();
    assert!(server.should_retire());

    let reply = [
        frame(b'T', b"\0\x01?column?\0\0\0\0\0\0\0\0\0\0\x17\0\x04\xff\xff\xff\xff\0\0"),
        frame(b'D', b"\0\x01\0\0\0\x011"),
        frame(b'C', b"SELECT 1\0"),
        ready_for_query(),
    ]
    .concat();
    let n = server.read_and_parse(&reply).unwrap();
    let step = transaction_step(&mut client, &mut server, TxnEvent::ServerRead(Ok(n)));
    match step.relay {
        Some(Relay::ToClient(k)) => assert_eq!(&server.buffer[..k], &reply[..]),
        _ => panic!("expected a relay to the client"),
    }
    assert!(matches!(step.verdict, TxnVerdict::Complete));
    assert!(!server.should_retire());
}

#[test]
fn terminate_at_idle_closes_cleanly() {
    let mut client = PgConnState::new();
    let n = client.read_and_parse(&[b'X', 0, 0, 0, 4]).unwrap();
    assert!(matches!(idle_step(&mut client, IdleEvent::ClientRead(Ok(n))), IdleStep::Exit));
}

#[test]
fn other_messages_at_idle_are_a_violation() {
    let mut client = PgConnState::new();
    let n = client.read_and_parse(&frame(b'P', b"\0SELECT 1\0\0\0")).unwrap();
    assert!(matches!(
        idle_step(&mut client, IdleEvent::ClientRead(Ok(n))),
        IdleStep::Failed(ProtoError::ProtocolViolation)
    ));
    let mut client = PgConnState::new();
    assert!(matches!(idle_step(&mut client, IdleEvent::ClientRead(Ok(0))), IdleStep::Wait));
}

#[test]
fn shutdown_waits_for_the_transaction_to_end() {
    let mut client = PgConnState::new();
    let mut server = PgConnState::new();
    server.begin_transaction();
    // A row arrives: the transaction goes on, shutdown or not.
    let n = server.read_and_parse(&frame(b'D', b"\0\x01\0\0\0\x011")).unwrap();
    let step = transaction_step(&mut client, &mut server, TxnEvent::ServerRead(Ok(n)));
    assert!(matches!(step.verdict, TxnVerdict::Continue));
    assert!(server.should_retire());
    // The backend becomes idle: it can go back to the pool.
    let n = server.read_and_parse(&ready_for_query()).unwrap();
    let step = transaction_step(&mut client, &mut server, TxnEvent::ServerRead(Ok(n)));
    assert!(matches!(step.verdict, TxnVerdict::Complete));
    assert!(!server.should_retire());
    // At the next idle wait the shutdown is seen.
    assert!(matches!(idle_step(&mut client, IdleEvent::Shutdown), IdleStep::Exit));
}

#[test]
fn terminate_inside_a_transaction_is_fatal() {
    let mut client = PgConnState::new();
    let mut server = PgConnState::new();
    let n = client.read_and_parse(&[b'X', 0, 0, 0, 4]).unwrap();
    let step = transaction_step(&mut client, &mut server, TxnEvent::ClientRead(Ok(n)));
    assert!(matches!(step.relay, Some(Relay::ToServer(5))));
    assert!(matches!(step.verdict, TxnVerdict::Failed(ProtoError::Disconnected)));
    let n = server.read_and_parse(&[b'X', 0, 0, 0, 4]).unwrap();
    let step = transaction_step(&mut client, &mut server, TxnEvent::ServerRead(Ok(n)));
    assert!(matches!(step.verdict, TxnVerdict::Failed(ProtoError::Disconnected)));
}

#[test]
fn configuration_defaults_and_lookup() {
    assert_eq!(default_port(), "5432");
    assert_eq!(default_pool_size(), 25);
    let config = Config::example();
    assert_eq!(config.bind_address, "localhost:8432");
    assert!(config.database("my_db_alias").is_some());
    assert!(config.database("other").is_none());
    let params = config.databases[0].1.startup_parameters();
    assert_eq!(params.get("database"), Some(&"dispatch_development".to_string()));
    assert_eq!(params.get("user"), Some(&"testuser".to_string()));
    assert_eq!(params.len(), 2);
    let sm = client_startup("postgres", "missing");
    assert_eq!(config.pool_size(&sm).err(), Some(ProtoError::UnknownDatabase));
}

#[test]
fn param_map_keeps_keys_sorted_and_unique() {
    let mut p = ParamMap::new();
    p.insert("b".into(), "1".into());
    p.insert("a".into(), "2".into());
    p.insert("b".into(), "3".into());
    assert_eq!(p.len(), 2);
    assert_eq!(p.key_at(0), "a");
    assert_eq!(p.value_at(1), "3");
    assert!(p.is_sorted());
}

/// Frames in stream positions: (tag, start, end, whole).
fn place_all(frames: &mut Vec<(char, usize, usize, bool)>, base: usize, msgs: &mut VecDeque<ProtoMessage>) {
    while let Some(m) = msgs.pop_front() {
        let open = matches!(frames.last(), Some(f) if !f.3);
        match m {
            ProtoMessage::Message(t, s, e) => frames.push((t, base + s, base + e, true)),
            ProtoMessage::Partial(t, s, e) => {
                if open {
                    frames.last_mut().unwrap().2 = base + e;
                } else {
                    frames.push((t, base + s, base + e, false));
                }
            }
            ProtoMessage::PartialComplete(t, e) => {
                if open {
                    let f = frames.last_mut().unwrap();
                    f.2 = base + e;
                    f.3 = true;
                } else {
                    frames.push((t, base, base + e, true));
                }
            }
        }
    }
}

#[test]
fn chunked_reads_find_the_same_frames_as_one_read() {
    let stream: Vec<u8> = [
        frame(b'T', &[1u8; 29]),
        frame(b'D', b"0123456789"),
        frame(b'S', &[]),
        frame(b'C', b"SELECT 1\0"),
        ready_for_query(),
    ]
    .concat();
    let mut whole = vec![];
    let mut parser = ProtoParser::new();
    let mut msgs = VecDeque::new();
    assert_eq!(parser.parse(&stream, &mut msgs), Ok(stream.len()));
    place_all(&mut whole, 0, &mut msgs);
    assert_eq!(whole.len(), 5);

    for cut in 1..stream.len() {
        let mut conn = PgConnState::new();
        let mut frames = vec![];
        let mut base = 0;
        for chunk in stream.chunks(cut) {
            let n = conn.read_and_parse(chunk).unwrap();
            place_all(&mut frames, base, &mut conn.msgs);
            base += n;
        }
        let stranded = matches!(frames.last(), Some(f) if !f.3) && !conn.incomplete_buffer.is_empty();
        if stranded {
            // The last bytes wait in the carry; the frame is still open.
            assert_eq!(base + conn.incomplete_buffer.len(), stream.len());
            assert_eq!(frames[..frames.len() - 1], whole[..whole.len() - 1]);
        } else {
            assert_eq!(frames, whole, "reads of {} bytes", cut);
            assert_eq!(base, stream.len());
        }
    }
}
