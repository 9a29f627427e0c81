use peeroxide_dht::compact_encoding::State;
use peeroxide_dht::messages::{
    decode_ipv4_array, decode_message, encode_ipv4_array, encode_request_to_bytes, encode_response_to_bytes,
    preencode_ipv4_array, Command, Ipv4Peer, Message, Request, Response, REQUEST_ID, RESPONSE_ID,
};

fn make_test_request() -> Request {
    Request {
        tid: 42,
        to: Ipv4Peer { host: "127.0.0.1".into(), port: 49737 },
        id: None,
        token: None,
        internal: false,
        command: Command::Ping as u64,
        target: None,
        value: None,
    }
}

fn make_test_response() -> Response {
    Response {
        tid: 42,
        to: Ipv4Peer { host: "127.0.0.1".into(), port: 49737 },
        id: None,
        token: None,
        closer_nodes: Vec::new(),
        error: 0,
        value: None,
    }
}

#[test]
fn request_roundtrip_minimal() {
    let req = make_test_request();
    let bytes = encode_request_to_bytes(&req).unwrap();
    assert_eq!(bytes[0], REQUEST_ID);

    let msg = decode_message(&bytes).unwrap();
    let Message::Request(decoded) = msg else {
        panic!("expected request");
    };
    assert_eq!(decoded.tid, 42);
    assert_eq!(decoded.command, Command::Ping as u64);
    assert!(!decoded.internal);
    assert!(decoded.id.is_none());
    assert!(decoded.token.is_none());
    assert!(decoded.target.is_none());
    assert!(decoded.value.is_none());
}

#[test]
fn response_roundtrip_minimal() {
    let res = make_test_response();
    let bytes = encode_response_to_bytes(&res).unwrap();
    assert_eq!(bytes[0], RESPONSE_ID);

    let msg = decode_message(&bytes).unwrap();
    let Message::Response(decoded) = msg else {
        panic!("expected response");
    };
    assert_eq!(decoded.tid, 42);
    assert!(decoded.closer_nodes.is_empty());
    assert_eq!(decoded.error, 0);
    assert!(decoded.id.is_none());
    assert!(decoded.token.is_none());
    assert!(decoded.value.is_none());
}

#[test]
fn request_roundtrip_full() {
    let req = Request {
        tid: 1000,
        to: Ipv4Peer { host: "10.0.0.1".into(), port: 8080 },
        id: Some([0xAA; 32]),
        token: Some([0xBB; 32]),
        internal: true,
        command: Command::FindNode as u64,
        target: Some([0xCC; 32]),
        value: Some(vec![1, 2, 3, 4]),
    };
    let bytes = encode_request_to_bytes(&req).unwrap();
    let msg = decode_message(&bytes).unwrap();
    let Message::Request(decoded) = msg else {
        panic!("expected request");
    };
    assert_eq!(decoded.tid, 1000);
    assert_eq!(decoded.to.host, "10.0.0.1");
    assert_eq!(decoded.to.port, 8080);
    assert_eq!(decoded.id, Some([0xAA; 32]));
    assert_eq!(decoded.token, Some([0xBB; 32]));
    assert!(decoded.internal);
    assert_eq!(decoded.command, Command::FindNode as u64);
    assert_eq!(decoded.target, Some([0xCC; 32]));
    assert_eq!(decoded.value, Some(vec![1, 2, 3, 4]));
}

#[test]
fn response_roundtrip_with_closer_nodes() {
    let res = Response {
        tid: 500,
        to: Ipv4Peer { host: "192.168.1.1".into(), port: 3000 },
        id: Some([0x11; 32]),
        token: Some([0x22; 32]),
        closer_nodes: vec![
            Ipv4Peer { host: "10.0.0.1".into(), port: 8080 },
            Ipv4Peer { host: "10.0.0.2".into(), port: 9090 },
        ],
        error: 0,
        value: Some(b"hello".to_vec()),
    };
    let bytes = encode_response_to_bytes(&res).unwrap();
    let msg = decode_message(&bytes).unwrap();
    let Message::Response(decoded) = msg else {
        panic!("expected response");
    };
    assert_eq!(decoded.tid, 500);
    assert_eq!(decoded.closer_nodes.len(), 2);
    assert_eq!(decoded.closer_nodes[0].host, "10.0.0.1");
    assert_eq!(decoded.closer_nodes[0].port, 8080);
    assert_eq!(decoded.closer_nodes[1].host, "10.0.0.2");
    assert_eq!(decoded.closer_nodes[1].port, 9090);
    assert_eq!(decoded.value, Some(b"hello".to_vec()));
}

#[test]
fn response_roundtrip_with_error() {
    let res = Response {
        tid: 100,
        to: Ipv4Peer { host: "127.0.0.1".into(), port: 5000 },
        id: None,
        token: None,
        closer_nodes: Vec::new(),
        error: 42,
        value: None,
    };
    let bytes = encode_response_to_bytes(&res).unwrap();
    let msg = decode_message(&bytes).unwrap();
    let Message::Response(decoded) = msg else {
        panic!("expected response");
    };
    assert_eq!(decoded.error, 42);
}

#[test]
fn request_type_byte() {
    assert_eq!(REQUEST_ID, 0x03);
}

#[test]
fn response_type_byte() {
    assert_eq!(RESPONSE_ID, 0x13);
}

#[test]
fn decode_empty_buffer_fails() {
    assert!(decode_message(&[]).is_err());
}

#[test]
fn decode_wrong_version_fails() {
    assert!(decode_message(&[0x01]).is_err());
}

#[test]
fn ipv4_array_roundtrip() {
    let peers = vec![
        Ipv4Peer { host: "10.0.0.1".into(), port: 8080 },
        Ipv4Peer { host: "192.168.1.1".into(), port: 3000 },
    ];
    let mut state = State::new();
    preencode_ipv4_array(&mut state, &peers);
    state.allocate();
    encode_ipv4_array(&mut state, &peers).unwrap();

    let mut dec = State::from_buffer(&state.buffer);
    let decoded = decode_ipv4_array(&mut dec).unwrap();
    assert_eq!(decoded.len(), 2);
    assert_eq!(decoded[0].host, "10.0.0.1");
    assert_eq!(decoded[0].port, 8080);
    assert_eq!(decoded[1].host, "192.168.1.1");
    assert_eq!(decoded[1].port, 3000);
}

#[test]
fn command_values() {
    assert_eq!(Command::Ping as u64, 0);
    assert_eq!(Command::PingNat as u64, 1);
    assert_eq!(Command::FindNode as u64, 2);
    assert_eq!(Command::DownHint as u64, 3);
    assert_eq!(Command::DelayedPing as u64, 4);
}

// ── Further cases ──

#[test]
fn command_codes_roundtrip() {
    for code in 0u64..5 {
        let c = Command::from_u64(code).unwrap();
        assert_eq!(c.code(), code);
    }
    assert!(Command::from_u64(5).is_none());
}

#[test]
fn request_with_bad_host_is_refused() {
    let mut req = make_test_request();
    req.to.host = "not-an-ip".into();
    assert!(encode_request_to_bytes(&req).is_err());
}

#[test]
fn request_minimal_exact_bytes() {
    let bytes = encode_request_to_bytes(&make_test_request()).unwrap();
    // type, flags, tid (2), ipv4 (4), port (2), command
    assert_eq!(bytes, vec![0x03, 0x00, 42, 0, 127, 0, 0, 1, 0x49, 0xc2, 0]);
}
