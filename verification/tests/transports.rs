use sealant_capture::address::{names_loopback, read_socket, Host};
use sealant_capture::sink::SinkError;
use sealant_capture::transport::{
    certificates_among, is_loopback, ChannelTransport, PemFound, TransportError, UrlParts,
};

#[test]
fn https_is_dialled_anywhere() {
    let transport = ChannelTransport::verified();
    assert_eq!(transport.check("the channel", "https://mend.example/api/channel"), Ok(()));
}

#[test]
fn plain_http_is_dialled_to_loopback_only() {
    let transport = ChannelTransport::verified();
    for url in [
        "http://127.0.0.1:3106/channel",
        "http://127.8.9.1/channel",
        "http://[::1]:3106/channel",
        "http://localhost:3106/channel",
    ] {
        assert_eq!(transport.check("the channel", url), Ok(()), "{url}");
    }
    for (url, host) in [
        ("http://mend-api:3106/channel", "mend-api"),
        ("http://10.0.0.6:3106/channel", "10.0.0.6"),
        ("http://127.0.0.1.example.com/channel", "127.0.0.1.example.com"),
        ("http://localhost.example.com/channel", "localhost.example.com"),
    ] {
        assert_eq!(
            transport.check("the channel", url),
            Err(TransportError::Plaintext { what: "the channel", host: host.to_owned() }),
            "{url}"
        );
    }
}

#[test]
fn the_explicit_exception_dials_plain_http() {
    let transport = ChannelTransport::verified().allow_plaintext(true);
    assert!(transport.plaintext_allowed());
    assert_eq!(transport.check("the channel", "http://mend-api:3106/channel"), Ok(()));
}

#[test]
fn plain_http_beyond_loopback_is_refused_at_construction() {
    let refusal = ChannelTransport::verified()
        .check("the channel", "http://mend-api:3106/channel")
        .expect_err("refused");
    assert!(refusal.message().contains("SEALANT_CAPTURE_ALLOW_PLAINTEXT"));
    ChannelTransport::verified()
        .allow_plaintext(true)
        .check("the channel", "http://mend-api:3106/channel")
        .expect("the explicit exception dials it");
}

#[test]
fn an_object_url_the_policy_does_not_dial_is_never_sent_bytes() {
    let url = "http://bucket.internal/captures/w/pack?X-Amz-Signature=secret";
    let transport = ChannelTransport::verified();
    match transport.check_object("captures/w/pack", url).expect_err("refused") {
        SinkError::NoUrl { reason, .. } => {
            assert!(reason.contains("bucket.internal"), "{reason}");
            assert!(!reason.contains("secret"), "{reason}");
        }
        other => panic!("expected NoUrl, got {}", other.message()),
    }
    assert!(transport.check_object("k", "https://bucket.example/k?sig=1").is_ok());
}

#[test]
fn other_schemes_and_shapes_are_refused_even_with_the_exception() {
    let transport = ChannelTransport::verified().allow_plaintext(true);
    assert_eq!(
        transport.check("the channel", "ftp://mend.example/channel"),
        Err(TransportError::Scheme { what: "the channel", scheme: "ftp".to_owned() })
    );
    for url in ["", "mend.example/channel", "/channel", "https://"] {
        assert_eq!(
            transport.check("the channel", url),
            Err(TransportError::Malformed { what: "the channel" }),
            "{url:?}"
        );
    }
}

#[test]
fn spellings_that_only_look_like_loopback_are_refused() {
    let transport = ChannelTransport::verified();
    for url in [
        "http://127.0.0.1@evil.example/channel",
        "http://localhost@evil.example/channel",
        "http://0.0.0.0:3106/channel",
        "http://2130706433/channel",
        "http://localhost./channel",
        "http://[::ffff:127.0.0.1]/channel",
    ] {
        assert!(
            matches!(
                transport.check("the channel", url),
                Err(TransportError::Plaintext { .. } | TransportError::Malformed { .. })
            ),
            "{url}"
        );
    }
    // A scheme is case-insensitive: an uppercase one earns no exemption.
    assert!(matches!(
        transport.check("the channel", "HTTP://mend-api:3106/channel"),
        Err(TransportError::Plaintext { .. })
    ));
}

#[test]
fn a_refusal_never_repeats_the_path_or_query() {
    let refusal = ChannelTransport::verified()
        .check(
            "an object URL",
            "http://bucket.internal/captures/w/pack?X-Amz-Signature=secret",
        )
        .expect_err("refused");
    let text = refusal.message();
    assert!(text.contains("bucket.internal"), "{text}");
    assert!(!text.contains("secret") && !text.contains("captures/w"), "{text}");
}

#[test]
fn a_ca_bundle_without_a_certificate_is_refused() {
    assert!(matches!(
        ChannelTransport::verified().with_channel_ca_pem("not pem"),
        Err(TransportError::CaBundle(_))
    ));
}

fn block(label: &str, base64: &str) -> String {
    format!("-----BEGIN {label}-----\n{base64}\n-----END {label}-----\n")
}

#[test]
fn the_certificates_of_a_bundle_become_the_roots() {
    let pem = block("CERTIFICATE", "AQID") + &block("CERTIFICATE", "BAUG");
    let transport = ChannelTransport::verified().with_channel_ca_pem(&pem).unwrap();
    assert_eq!(transport.channel_roots, Some(vec![vec![1, 2, 3], vec![4, 5, 6]]));
    assert_eq!(transport.object_roots, None);
    let transport =
        ChannelTransport::verified().with_object_ca_pem(&block("CERTIFICATE", "AQID")).unwrap();
    assert_eq!(transport.object_roots, Some(vec![vec![1, 2, 3]]));
}

#[test]
fn a_bad_item_spoils_a_bundle() {
    let items = vec![PemFound::Certificate(vec![1]), PemFound::Bad("bad base64".into())];
    match certificates_among(items) {
        Err(e) => assert!(e.message().contains("bad base64"), "{}", e.message()),
        Ok(_) => panic!("refused"),
    }
    let found = certificates_among(vec![PemFound::Other, PemFound::Certificate(vec![7])]).unwrap();
    assert_eq!(found, [vec![7]]);
    assert!(certificates_among(vec![PemFound::Other]).is_err());
}

#[test]
fn a_url_without_a_host_is_malformed() {
    let transport = ChannelTransport::verified();
    let url = UrlParts { scheme: Some("https".into()), host: None };
    assert_eq!(
        transport.judge("x", Some(url)),
        Err(TransportError::Malformed { what: "x" })
    );
    let url = UrlParts { scheme: Some("http".into()), host: Some("localhost".into()) };
    assert_eq!(transport.judge("x", Some(url)), Ok(()));
    assert_eq!(transport.judge("x", None), Err(TransportError::Malformed { what: "x" }));
}

#[test]
fn loopback_has_many_spellings() {
    for host in ["127.0.0.1", "[::1]", "::1", "0:0:0:0:0:0:0:1", "::0.0.0.1", "LOCALHOST"] {
        assert!(is_loopback(host), "{host}");
    }
    for host in ["128.0.0.1", "127.0.0", "127.0.0.01", "127.0.0.256", "::2", "::", "1::1", ""] {
        assert!(!is_loopback(host), "{host}");
    }
    assert!(names_loopback("127.255.255.255"));
    assert!(!names_loopback("localhost"));
}

#[test]
fn socket_addresses_are_read_strictly() {
    let v4 = read_socket("10.0.0.6:7443").unwrap();
    assert_eq!(v4.host, Host::V4(10, 0, 0, 6));
    assert_eq!(v4.port(), 7443);
    let v6 = read_socket("[fe80::1%3]:080").unwrap();
    assert_eq!(v6.host, Host::V6(vec![0xfe80, 0, 0, 0, 0, 0, 0, 1], 3));
    assert_eq!(v6.port(), 80);
    let mapped = read_socket("[::ffff:1.2.3.4]:1").unwrap();
    assert_eq!(mapped.host, Host::V6(vec![0, 0, 0, 0, 0, 0xffff, 0x0102, 0x0304], 0));
    for bad in [
        "", "10.0.0.6", "10.0.0.6:", "10.0.0.6:65536", "10.0.0.6:+1", "::1:80", "[::1]", "[::1]80",
        "[::1%x]:80", "localhost:80", "[10.0.0.6]:80", "10.0.0.6:80 ",
    ] {
        assert!(read_socket(bad).is_none(), "{bad:?}");
    }
}
