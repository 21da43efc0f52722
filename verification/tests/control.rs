use sealant_capture::frame::{declared_length, read_frame, write_frame, FrameError, FrameRead};
use sealant_capture::paths::FsPath;
use sealant_capture::server::{
    decode_inbound, prepare_socket_path, ConnAction, ConnError, ConnEvent, Connection, Decoded,
    ErrorCode, Inbound, ListenAction, ListenEvent, Listener, SocketError, SocketPath,
};
use sealant_capture::wss::{
    accepts_upgrade, judge_certificates, judge_private_key, max_message, message_to_bytes,
    read_pem_certs, read_pem_key, SocketMessage, WssConfig, CONTROL_PATH,
};

#[test]
fn round_trips_a_frame() {
    let payload = b"hello frame";
    let wire = write_frame(payload, 1024).unwrap();
    assert_eq!(&wire[..4], &[0, 0, 0, 11]);
    match read_frame(&wire, false, 1024).unwrap() {
        FrameRead::Body(body) => assert_eq!(body, payload),
        other => panic!("expected the body, got {other:?}"),
    }
}

#[test]
fn clean_eof_returns_none() {
    assert_eq!(read_frame(&[], true, 64).unwrap(), FrameRead::End);
}

#[test]
fn oversized_declared_length_is_rejected_before_alloc() {
    // Declare a 4 GiB body without sending it.
    let err = read_frame(&u32::MAX.to_be_bytes(), false, 1024).unwrap_err();
    assert!(matches!(err, FrameError::TooLarge { max: 1024, .. }));
}

#[test]
fn writing_oversized_body_is_rejected() {
    let big = vec![0u8; 2048];
    let err = write_frame(&big, 1024).unwrap_err();
    assert!(matches!(err, FrameError::TooLarge { len: 2048, max: 1024 }));
    assert_eq!(err.message(), "frame length 2048 exceeds maximum 1024");
}

#[test]
fn frames_in_a_row_read_back_in_order() {
    let mut wire = Vec::new();
    let bodies: [&[u8]; 3] = [b"one", b"", b"three"];
    for body in bodies {
        wire.extend(write_frame(body, 16).unwrap());
    }
    let mut at = 0;
    for body in bodies {
        match read_frame(&wire[at..], true, 16).unwrap() {
            FrameRead::Body(read) => {
                assert_eq!(read, body);
                at += 4 + read.len();
            }
            other => panic!("expected a body, got {other:?}"),
        }
    }
    assert_eq!(read_frame(&wire[at..], true, 16).unwrap(), FrameRead::End);
}

#[test]
fn a_frame_that_is_cut_off_is_an_error() {
    let wire = write_frame(b"hello", 16).unwrap();
    for cut in 1..wire.len() {
        assert!(matches!(read_frame(&wire[..cut], true, 16), Err(FrameError::Io(_))), "{cut}");
    }
    assert_eq!(read_frame(&wire[..2], false, 16).unwrap(), FrameRead::More(2));
    assert_eq!(read_frame(&wire[..6], false, 16).unwrap(), FrameRead::More(3));
    assert_eq!(declared_length(&[0, 1, 0, 2], 70_000).unwrap(), 65_538);
    assert_eq!(ConnError::Frame(FrameError::Io("reset".into())).message(), "reset");
}

fn request(version: u32) -> Decoded {
    Decoded::Request { request_id: "req_1".into(), schema_version: version }
}

fn stream(channel: &str, is_end: bool) -> Decoded {
    Decoded::Stream { channel_id: channel.into(), is_end }
}

/// A frame that is no message is answered, with an unknown request id, and the connection goes on.
#[test]
fn malformed_frame_gets_error_response() {
    let mut conn = Connection::new(4096, 3);
    match conn.next(ConnEvent::Frame(Decoded::Malformed("no such tag".into()))) {
        ConnAction::Reply(reply) => {
            assert_eq!(reply.request_id, "unknown");
            assert_eq!(reply.code, ErrorCode::InvalidMessage);
            assert_eq!(reply.message, "no such tag");
        }
        _ => panic!("expected an error response"),
    }
    assert!(conn.open);
}

#[test]
fn inbound_stream_frames_route_to_registered_channel() {
    let mut conn = Connection::new(4096, 3);
    conn.register_channel("chan_echo".into(), 8);
    for _ in 0..3 {
        assert!(matches!(
            conn.next(ConnEvent::Frame(stream("chan_echo", false))),
            ConnAction::Deliver { sink: 8, last: false }
        ));
    }
    assert!(matches!(conn.next(ConnEvent::Frame(stream("other", false))), ConnAction::Read));
    // The frame that ends the channel is delivered; nothing after it is.
    assert!(matches!(
        conn.next(ConnEvent::Frame(stream("chan_echo", true))),
        ConnAction::Deliver { sink: 8, last: true }
    ));
    assert!(matches!(conn.next(ConnEvent::Frame(stream("chan_echo", false))), ConnAction::Read));
}

#[test]
fn dropping_connection_tears_down_channels() {
    let mut conn = Connection::new(4096, 3);
    assert_eq!(conn.register_channel("a".into(), 7), None);
    assert_eq!(conn.register_channel("a".into(), 1), Some(7));
    conn.register_channel("b".into(), 2);
    conn.register_closer("b".into(), 20);
    conn.register_closer("a".into(), 10);
    assert!(matches!(conn.next(ConnEvent::Ended), ConnAction::Close));
    assert_eq!(conn.teardown(), [10, 20]);
    assert_eq!(conn.channels.len(), 0);
    assert!(conn.teardown().is_empty());
}

#[test]
fn requests_are_dispatched_unless_their_version_is_another() {
    let mut conn = Connection::new(4096, 3);
    assert!(matches!(conn.next(ConnEvent::Frame(request(3))), ConnAction::Dispatch));
    match conn.next(ConnEvent::Frame(request(2))) {
        ConnAction::Reply(reply) => {
            assert_eq!(reply.request_id, "req_1");
            assert_eq!(reply.code, ErrorCode::UnsupportedVersion);
            assert_eq!(reply.message, "schemaVersion 2 is not supported (expected 3)");
        }
        _ => panic!("expected an error response"),
    }
    assert!(matches!(decode_inbound(&stream("c", true), 3), Inbound::Stream));
    assert!(matches!(decode_inbound(&request(3), 3), Inbound::Request));
}

#[test]
fn oversized_frame_is_reported_then_closed() {
    let mut conn = Connection::new(16, 3);
    match conn.next(ConnEvent::Failed(FrameError::TooLarge { len: 17, max: 16 })) {
        ConnAction::ReplyAndClose(reply) => {
            assert_eq!(reply.request_id, "unknown");
            assert_eq!(reply.code, ErrorCode::FrameTooLarge);
            assert_eq!(reply.message, "frame length 17 exceeds maximum 16");
        }
        _ => panic!("expected a last response"),
    }
    assert!(!conn.open);
}

#[test]
fn a_connection_ends_on_shutdown_errors_and_a_gone_peer() {
    let mut conn = Connection::new(16, 3);
    assert!(matches!(
        conn.next(ConnEvent::Shutdown { gone: false, stop: false }),
        ConnAction::Read
    ));
    assert!(matches!(
        conn.next(ConnEvent::Shutdown { gone: false, stop: true }),
        ConnAction::Close
    ));
    let mut conn = Connection::new(16, 3);
    assert!(matches!(
        conn.next(ConnEvent::Failed(FrameError::Io("reset".into()))),
        ConnAction::Close
    ));
    let mut conn = Connection::new(16, 3);
    assert!(matches!(conn.next(ConnEvent::Unsendable), ConnAction::Close));
}

#[test]
fn a_socket_path_is_prepared_without_stomping() {
    let path = FsPath::of("/run/control.sock");
    let steps = prepare_socket_path(&path, &SocketPath::Stale).unwrap();
    assert!(steps.remove && steps.make_parent);
    let bare = FsPath::of("control.sock");
    let steps = prepare_socket_path(&bare, &SocketPath::Nothing).unwrap();
    assert!(!steps.remove && !steps.make_parent);
    match prepare_socket_path(&path, &SocketPath::Listening) {
        Err(e) => {
            assert_eq!(e.message(), "another process is listening on the control socket")
        }
        Ok(_) => panic!("in use"),
    }
    assert!(matches!(
        prepare_socket_path(&path, &SocketPath::Occupied),
        Err(SocketError::Exists)
    ));
    assert!(matches!(
        prepare_socket_path(&path, &SocketPath::Unreadable("denied".into())),
        Err(SocketError::Io(e)) if e == "denied"
    ));
}

#[test]
fn connection_limit_refuses_excess_clients() {
    let mut listener = Listener::new(Some(1));
    let peer = ListenEvent::Accepted { authorized: true };
    assert_eq!(listener.next(peer), ListenAction::Serve);
    assert_eq!(listener.next(peer), ListenAction::Refuse);
    assert_eq!(listener.next(ListenEvent::Ended), ListenAction::Accept);
    assert_eq!(listener.next(peer), ListenAction::Serve);
    assert_eq!(listener.live, 1);
}

#[test]
fn shutdown_closes_listener_and_live_connections() {
    let mut listener = Listener::new(None);
    let peer = ListenEvent::Accepted { authorized: true };
    assert_eq!(listener.next(peer), ListenAction::Serve);
    assert_eq!(listener.next(peer), ListenAction::Serve);
    assert_eq!(listener.next(ListenEvent::Failed), ListenAction::Accept);
    let stop = ListenEvent::Shutdown { gone: false, stop: true };
    assert_eq!(listener.next(stop), ListenAction::Drain);
    assert_eq!(listener.next(peer), ListenAction::Refuse);
    assert_eq!(listener.next(ListenEvent::Ended), ListenAction::Drain);
    assert_eq!(listener.next(ListenEvent::Ended), ListenAction::Finish);
    let mut slow = Listener::new(None);
    assert_eq!(slow.next(peer), ListenAction::Serve);
    assert_eq!(slow.next(stop), ListenAction::Drain);
    assert_eq!(slow.next(ListenEvent::GraceOver), ListenAction::Finish);
}

#[test]
fn an_unauthorized_peer_is_dropped() {
    let mut listener = Listener::new(None);
    assert_eq!(
        listener.next(ListenEvent::Accepted { authorized: false }),
        ListenAction::Refuse
    );
    assert_eq!(listener.live, 0);
    assert_eq!(
        listener.next(ListenEvent::Shutdown { gone: true, stop: false }),
        ListenAction::Finish
    );
}

#[test]
fn from_parts_is_off_without_listen_and_strict_with_it() {
    assert!(WssConfig::from_parts(None, Some("/c"), Some("/k"), Some("/ca"), None)
        .expect("ok")
        .is_none());
    assert!(
        WssConfig::from_parts(Some("0.0.0.0:7443"), None, Some("/k"), Some("/ca"), None).is_err()
    );
    assert!(WssConfig::from_parts(
        Some("not-an-addr"),
        Some("/c"),
        Some("/k"),
        Some("/ca"),
        None
    )
    .is_err());
    assert!(WssConfig::from_parts(
        Some("0.0.0.0:7443"),
        Some("/c"),
        Some("/k"),
        Some("/ca"),
        Some("0")
    )
    .is_err());
    let config = WssConfig::from_parts(
        Some("0.0.0.0:7443"),
        Some("/c"),
        Some("/k"),
        Some("/ca"),
        Some("8"),
    )
    .expect("ok")
    .expect("some");
    assert_eq!(config.max_connections, 8);
    assert_eq!(config.listen.port(), 7443);
}

#[test]
fn settings_are_trimmed_and_reported_by_name() {
    let config = WssConfig::from_parts(
        Some("  [::1]:1 "),
        Some(" /c "),
        Some("/k"),
        Some("/ca"),
        Some("  "),
    )
    .expect("ok")
    .expect("some");
    assert_eq!(config.cert_path, "/c");
    assert_eq!(config.max_connections, 64);
    assert_eq!(config.handshake_timeout, 10_000_000_000);
    assert!(config.check().is_ok());
    assert!(WssConfig::from_parts(Some("   "), None, None, None, None).expect("off").is_none());
    let error = |cert, key, ca, max| {
        WssConfig::from_parts(Some("1.2.3.4:5"), cert, key, ca, max).expect_err("refused")
    };
    assert_eq!(
        error(None, None, None, None),
        "wss is enabled but the server certificate path is not set"
    );
    assert_eq!(
        error(Some("c"), Some(" "), None, None),
        "wss is enabled but the server key path is not set"
    );
    assert_eq!(
        error(Some("c"), Some("k"), None, None),
        "wss is enabled but the client CA path is not set"
    );
    assert_eq!(
        error(Some("c"), Some("k"), Some("a"), Some(" -1")),
        "wss max connections '-1' must be a positive integer"
    );
    assert_eq!(
        WssConfig::from_parts(Some(" nope "), None, None, None, None).expect_err("refused"),
        "wss listen address 'nope' is invalid: invalid socket address syntax"
    );
}

#[test]
fn a_frontend_without_connections_cannot_be_bound() {
    let mut config =
        WssConfig::from_parts(Some("1.2.3.4:5"), Some("c"), Some("k"), Some("a"), None)
            .expect("ok")
            .expect("some");
    config.max_connections = 0;
    assert_eq!(config.check(), Err("wss max_connections must be at least 1".to_owned()));
}

fn block(label: &str, base64: &str) -> String {
    format!("-----BEGIN {label}-----\n{base64}\n-----END {label}-----\n")
}

#[test]
fn missing_tls_material_is_a_bind_error() {
    let certs = block("CERTIFICATE", "AQID") + &block("CERTIFICATE", "BAUG");
    assert_eq!(
        read_pem_certs(certs.as_bytes(), "/c", "wss certificate").unwrap(),
        [vec![1, 2, 3], vec![4, 5, 6]]
    );
    assert_eq!(
        read_pem_certs(b"nothing here", "/c", "wss certificate"),
        Err("wss certificate /c contains no certificates".to_owned())
    );
    let key = block("PRIVATE KEY", "BwgJ") + &certs;
    assert_eq!(read_pem_key(key.as_bytes(), "/k").unwrap(), [7, 8, 9]);
    assert_eq!(
        read_pem_key(certs.as_bytes(), "/k"),
        Err("wss key /k contains no private key".to_owned())
    );
    let bad = block("CERTIFICATE", "*");
    assert!(read_pem_certs(bad.as_bytes(), "/c", "wss client CA")
        .expect_err("refused")
        .starts_with("wss client CA /c: "));
}

#[test]
fn unreadable_tls_material_is_named() {
    assert_eq!(
        judge_certificates(Err("bad".into()), "/c", "wss client CA"),
        Err("wss client CA /c: bad".to_owned())
    );
    assert_eq!(judge_certificates(Ok(vec![vec![1]]), "/c", "x"), Ok(vec![vec![1]]));
    assert_eq!(judge_private_key(Err("bad".into()), "/k"), Err("wss key /k: bad".to_owned()));
    assert_eq!(judge_private_key(Ok(Some(vec![1])), "/k"), Ok(vec![1]));
}

#[test]
fn wrong_path_is_refused() {
    assert!(accepts_upgrade(CONTROL_PATH));
    for path in ["/", "/control/", "/controls", "", "control"] {
        assert!(!accepts_upgrade(path), "{path}");
    }
    assert_eq!(max_message(1024), 1028);
}

#[test]
fn only_binary_messages_carry_bytes() {
    assert_eq!(message_to_bytes(SocketMessage::Binary(vec![1])), Some(Ok(vec![1])));
    assert_eq!(
        message_to_bytes(SocketMessage::Failed("reset".into())),
        Some(Err("reset".to_owned()))
    );
    for m in [SocketMessage::Other, SocketMessage::Close, SocketMessage::Closed] {
        assert_eq!(message_to_bytes(m), None);
    }
}
