use peeroxide_dht::compact_encoding::State;
use peeroxide_dht::hyperdht_messages::{
    decode_announce_from_bytes, decode_handshake_from_bytes, decode_holepunch_msg_from_bytes,
    decode_hyper_peer_from_bytes, decode_lookup_raw_reply_from_bytes, decode_mutable_get_response_from_bytes,
    decode_mutable_put_request_from_bytes, decode_mutable_signable_from_bytes, decode_relay_info,
    decode_relay_through_info, decode_udx_info, encode_announce_to_bytes, encode_handshake_to_bytes,
    encode_holepunch_msg_to_bytes, encode_hyper_peer_to_bytes, encode_lookup_raw_reply_to_bytes,
    encode_mutable_get_response_to_bytes, encode_mutable_put_request_to_bytes, encode_mutable_signable_to_bytes,
    encode_relay_info, encode_relay_through_info, encode_udx_info, preencode_relay_info,
    preencode_relay_through_info, preencode_udx_info, AnnounceMessage, HandshakeMessage, HolepunchInfo,
    HolepunchMessage, HyperPeer, Ipv6Peer, LookupRawReply, MutableGetResponse, MutablePutRequest,
    MutableSignable, RelayInfo, RelayThroughInfo, SecretStreamInfo, UdxInfo, ANNOUNCE, ERROR_ABORTED,
    ERROR_NONE, ERROR_SEQ_REUSED, ERROR_SEQ_TOO_LOW, ERROR_TRY_LATER, ERROR_VERSION_MISMATCH, FIND_PEER,
    FIREWALL_CONSISTENT, FIREWALL_OPEN, FIREWALL_RANDOM, FIREWALL_UNKNOWN, IMMUTABLE_GET, IMMUTABLE_PUT, LOOKUP,
    MODE_FROM_CLIENT, MODE_FROM_RELAY, MODE_FROM_SECOND_RELAY, MODE_FROM_SERVER, MODE_REPLY, MUTABLE_GET,
    MUTABLE_PUT, PEER_HANDSHAKE, PEER_HOLEPUNCH, UNANNOUNCE,
};
use peeroxide_dht::hyperdht_payloads::{
    decode_holepunch_payload_from_bytes, decode_noise_payload_from_bytes, encode_holepunch_payload_to_bytes,
    encode_noise_payload_to_bytes, HolepunchPayload, NoisePayload,
};
use peeroxide_dht::messages::Ipv4Peer;

fn make_peer(pk: u8) -> HyperPeer {
    HyperPeer {
        public_key: [pk; 32],
        relay_addresses: vec![],
    }
}

fn make_peer_with_relay(pk: u8) -> HyperPeer {
    HyperPeer {
        public_key: [pk; 32],
        relay_addresses: vec![Ipv4Peer {
            host: "10.0.0.1".into(),
            port: 8080,
        }],
    }
}

#[test]
fn hyper_peer_roundtrip_no_relays() {
    let peer = make_peer(0xaa);
    let bytes = encode_hyper_peer_to_bytes(&peer).unwrap();
    assert_eq!(bytes.len(), 33); // 32 pubkey + 1 uint(0)
    let decoded = decode_hyper_peer_from_bytes(&bytes).unwrap();
    assert_eq!(decoded.public_key, [0xaa; 32]);
    assert!(decoded.relay_addresses.is_empty());
}

#[test]
fn hyper_peer_roundtrip_with_relay() {
    let peer = make_peer_with_relay(0xbb);
    let bytes = encode_hyper_peer_to_bytes(&peer).unwrap();
    let decoded = decode_hyper_peer_from_bytes(&bytes).unwrap();
    assert_eq!(decoded.public_key, [0xbb; 32]);
    assert_eq!(decoded.relay_addresses.len(), 1);
    assert_eq!(decoded.relay_addresses[0].host, "10.0.0.1");
    assert_eq!(decoded.relay_addresses[0].port, 8080);
}

#[test]
fn announce_flags_all_absent() {
    let m = AnnounceMessage {
        peer: None,
        refresh: None,
        signature: None,
        bump: 0,
    };
    let bytes = encode_announce_to_bytes(&m).unwrap();
    assert_eq!(bytes, vec![0x00]); // flags = 0
    let decoded = decode_announce_from_bytes(&bytes).unwrap();
    assert!(decoded.peer.is_none());
    assert!(decoded.refresh.is_none());
    assert!(decoded.signature.is_none());
    assert_eq!(decoded.bump, 0);
}

#[test]
fn announce_peer_only() {
    let m = AnnounceMessage {
        peer: Some(make_peer(0xaa)),
        refresh: None,
        signature: None,
        bump: 0,
    };
    let bytes = encode_announce_to_bytes(&m).unwrap();
    assert_eq!(bytes[0], 0x01); // flag peer
    let decoded = decode_announce_from_bytes(&bytes).unwrap();
    let p = decoded.peer.unwrap();
    assert_eq!(p.public_key, [0xaa; 32]);
    assert!(decoded.refresh.is_none());
    assert!(decoded.signature.is_none());
    assert_eq!(decoded.bump, 0);
}

#[test]
fn announce_all_fields() {
    let m = AnnounceMessage {
        peer: Some(make_peer(0xaa)),
        refresh: Some([0xbb; 32]),
        signature: Some([0xcc; 64]),
        bump: 42,
    };
    let bytes = encode_announce_to_bytes(&m).unwrap();
    assert_eq!(bytes[0], 0x0f); // all 4 flags
    let decoded = decode_announce_from_bytes(&bytes).unwrap();
    assert_eq!(decoded.peer.unwrap().public_key, [0xaa; 32]);
    assert_eq!(decoded.refresh, Some([0xbb; 32]));
    assert_eq!(decoded.signature, Some([0xcc; 64]));
    assert_eq!(decoded.bump, 42);
}

#[test]
fn announce_bump_only() {
    let m = AnnounceMessage {
        peer: None,
        refresh: None,
        signature: None,
        bump: 100,
    };
    let bytes = encode_announce_to_bytes(&m).unwrap();
    assert_eq!(bytes[0], 0x08); // FLAG_BUMP
    let decoded = decode_announce_from_bytes(&bytes).unwrap();
    assert!(decoded.peer.is_none());
    assert_eq!(decoded.bump, 100);
}

#[test]
fn lookup_raw_reply_empty() {
    let m = LookupRawReply {
        peers: vec![],
        bump: 0,
    };
    let bytes = encode_lookup_raw_reply_to_bytes(&m).unwrap();
    let decoded = decode_lookup_raw_reply_from_bytes(&bytes).unwrap();
    assert!(decoded.peers.is_empty());
    assert_eq!(decoded.bump, 0);
}

#[test]
fn lookup_raw_reply_with_peers() {
    let m = LookupRawReply {
        peers: vec![make_peer(0xaa), make_peer(0xbb)],
        bump: 7,
    };
    let bytes = encode_lookup_raw_reply_to_bytes(&m).unwrap();
    let decoded = decode_lookup_raw_reply_from_bytes(&bytes).unwrap();
    assert_eq!(decoded.peers.len(), 2);
    assert_eq!(decoded.peers[0].public_key, [0xaa; 32]);
    assert_eq!(decoded.peers[1].public_key, [0xbb; 32]);
    assert_eq!(decoded.bump, 7);
}

#[test]
fn mutable_put_request_roundtrip() {
    let m = MutablePutRequest {
        public_key: [0x11; 32],
        seq: 3,
        value: b"hello".to_vec(),
        signature: [0x22; 64],
    };
    let bytes = encode_mutable_put_request_to_bytes(&m).unwrap();
    let decoded = decode_mutable_put_request_from_bytes(&bytes).unwrap();
    assert_eq!(decoded, m);
}

#[test]
fn mutable_get_response_roundtrip() {
    let m = MutableGetResponse {
        seq: 5,
        value: b"world".to_vec(),
        signature: [0x33; 64],
    };
    let bytes = encode_mutable_get_response_to_bytes(&m).unwrap();
    let decoded = decode_mutable_get_response_from_bytes(&bytes).unwrap();
    assert_eq!(decoded, m);
}

#[test]
fn mutable_signable_roundtrip() {
    let m = MutableSignable {
        seq: 42,
        value: b"data".to_vec(),
    };
    let bytes = encode_mutable_signable_to_bytes(&m).unwrap();
    let decoded = decode_mutable_signable_from_bytes(&bytes).unwrap();
    assert_eq!(decoded, m);
}

#[test]
fn command_constants() {
    assert_eq!(PEER_HANDSHAKE, 0);
    assert_eq!(PEER_HOLEPUNCH, 1);
    assert_eq!(FIND_PEER, 2);
    assert_eq!(LOOKUP, 3);
    assert_eq!(ANNOUNCE, 4);
    assert_eq!(UNANNOUNCE, 5);
    assert_eq!(MUTABLE_PUT, 6);
    assert_eq!(MUTABLE_GET, 7);
    assert_eq!(IMMUTABLE_PUT, 8);
    assert_eq!(IMMUTABLE_GET, 9);
}

// ── HandshakeMessage tests ──────────────────────────────────────────────

fn make_addr(host: &str, port: u16) -> Ipv4Peer {
    Ipv4Peer {
        host: host.into(),
        port,
    }
}

#[test]
fn handshake_no_addresses() {
    let m = HandshakeMessage {
        mode: MODE_FROM_CLIENT,
        noise: vec![0xab; 48],
        peer_address: None,
        relay_address: None,
    };
    let bytes = encode_handshake_to_bytes(&m).unwrap();
    let decoded = decode_handshake_from_bytes(&bytes).unwrap();
    assert_eq!(decoded, m);
}

#[test]
fn handshake_with_peer_address() {
    let m = HandshakeMessage {
        mode: MODE_FROM_SERVER,
        noise: vec![0xcd; 32],
        peer_address: Some(make_addr("192.168.1.1", 3000)),
        relay_address: None,
    };
    let bytes = encode_handshake_to_bytes(&m).unwrap();
    let decoded = decode_handshake_from_bytes(&bytes).unwrap();
    assert_eq!(decoded, m);
}

#[test]
fn handshake_with_relay_address() {
    let m = HandshakeMessage {
        mode: MODE_FROM_RELAY,
        noise: vec![0xef; 16],
        peer_address: None,
        relay_address: Some(make_addr("10.0.0.1", 8080)),
    };
    let bytes = encode_handshake_to_bytes(&m).unwrap();
    let decoded = decode_handshake_from_bytes(&bytes).unwrap();
    assert_eq!(decoded, m);
}

#[test]
fn handshake_both_addresses() {
    let m = HandshakeMessage {
        mode: MODE_REPLY,
        noise: vec![0x11; 64],
        peer_address: Some(make_addr("1.2.3.4", 1234)),
        relay_address: Some(make_addr("5.6.7.8", 5678)),
    };
    let bytes = encode_handshake_to_bytes(&m).unwrap();
    let decoded = decode_handshake_from_bytes(&bytes).unwrap();
    assert_eq!(decoded, m);
}

#[test]
fn handshake_empty_noise() {
    let m = HandshakeMessage {
        mode: MODE_FROM_SECOND_RELAY,
        noise: vec![],
        peer_address: None,
        relay_address: None,
    };
    let bytes = encode_handshake_to_bytes(&m).unwrap();
    let decoded = decode_handshake_from_bytes(&bytes).unwrap();
    assert_eq!(decoded, m);
}

// ── HolepunchMessage tests ──────────────────────────────────────────────

#[test]
fn holepunch_msg_no_peer_address() {
    let m = HolepunchMessage {
        mode: MODE_FROM_CLIENT,
        id: 42,
        payload: vec![0xaa; 24],
        peer_address: None,
    };
    let bytes = encode_holepunch_msg_to_bytes(&m).unwrap();
    let decoded = decode_holepunch_msg_from_bytes(&bytes).unwrap();
    assert_eq!(decoded, m);
}

#[test]
fn holepunch_msg_with_peer_address() {
    let m = HolepunchMessage {
        mode: MODE_FROM_RELAY,
        id: 9999,
        payload: vec![0xbb; 48],
        peer_address: Some(make_addr("10.0.0.5", 4000)),
    };
    let bytes = encode_holepunch_msg_to_bytes(&m).unwrap();
    let decoded = decode_holepunch_msg_from_bytes(&bytes).unwrap();
    assert_eq!(decoded, m);
}

#[test]
fn holepunch_msg_empty_payload() {
    let m = HolepunchMessage {
        mode: MODE_REPLY,
        id: 0,
        payload: vec![],
        peer_address: None,
    };
    let bytes = encode_holepunch_msg_to_bytes(&m).unwrap();
    let decoded = decode_holepunch_msg_from_bytes(&bytes).unwrap();
    assert_eq!(decoded, m);
}

// ── NoisePayload tests ──────────────────────────────────────────────────

#[test]
fn noise_payload_minimal() {
    let m = NoisePayload {
        version: 1,
        error: ERROR_NONE,
        firewall: FIREWALL_UNKNOWN,
        holepunch: None,
        addresses4: vec![],
        addresses6: vec![],
        udx: None,
        secret_stream: None,
        relay_through: None,
        relay_addresses: None,
    };
    let bytes = encode_noise_payload_to_bytes(&m).unwrap();
    assert_eq!(bytes, vec![1, 0, 0, 0]); // version=1, flags=0, error=0, firewall=0
    let decoded = decode_noise_payload_from_bytes(&bytes).unwrap();
    assert_eq!(decoded, m);
}

#[test]
fn noise_payload_with_addresses4() {
    let m = NoisePayload {
        version: 1,
        error: ERROR_NONE,
        firewall: FIREWALL_OPEN,
        holepunch: None,
        addresses4: vec![make_addr("1.2.3.4", 1000), make_addr("5.6.7.8", 2000)],
        addresses6: vec![],
        udx: None,
        secret_stream: None,
        relay_through: None,
        relay_addresses: None,
    };
    let bytes = encode_noise_payload_to_bytes(&m).unwrap();
    let decoded = decode_noise_payload_from_bytes(&bytes).unwrap();
    assert_eq!(decoded, m);
}

#[test]
fn noise_payload_with_holepunch_info() {
    let m = NoisePayload {
        version: 1,
        error: ERROR_NONE,
        firewall: FIREWALL_CONSISTENT,
        holepunch: Some(HolepunchInfo {
            id: 7,
            relays: vec![RelayInfo {
                relay_address: make_addr("10.0.0.1", 8080),
                peer_address: make_addr("192.168.1.1", 3000),
            }],
        }),
        addresses4: vec![],
        addresses6: vec![],
        udx: None,
        secret_stream: None,
        relay_through: None,
        relay_addresses: None,
    };
    let bytes = encode_noise_payload_to_bytes(&m).unwrap();
    let decoded = decode_noise_payload_from_bytes(&bytes).unwrap();
    assert_eq!(decoded, m);
}

#[test]
fn noise_payload_with_udx_and_secret_stream() {
    let m = NoisePayload {
        version: 1,
        error: ERROR_NONE,
        firewall: FIREWALL_RANDOM,
        holepunch: None,
        addresses4: vec![make_addr("1.2.3.4", 1000)],
        addresses6: vec![],
        udx: Some(UdxInfo {
            version: 1,
            reusable_socket: true,
            id: 100,
            seq: 200,
        }),
        secret_stream: Some(SecretStreamInfo { version: 1 }),
        relay_through: None,
        relay_addresses: None,
    };
    let bytes = encode_noise_payload_to_bytes(&m).unwrap();
    let decoded = decode_noise_payload_from_bytes(&bytes).unwrap();
    assert_eq!(decoded, m);
}

#[test]
fn noise_payload_all_fields() {
    let m = NoisePayload {
        version: 1,
        error: ERROR_ABORTED,
        firewall: FIREWALL_CONSISTENT,
        holepunch: Some(HolepunchInfo {
            id: 42,
            relays: vec![],
        }),
        addresses4: vec![make_addr("1.2.3.4", 1000)],
        addresses6: vec![Ipv6Peer {
            octets: [0x20, 0x01, 0x0d, 0xb8, 0, 0, 0, 0, 0, 0, 0, 0, 0, 0, 0, 0x01],
            port: 2000,
        }],
        udx: Some(UdxInfo {
            version: 1,
            reusable_socket: false,
            id: 1,
            seq: 0,
        }),
        secret_stream: Some(SecretStreamInfo { version: 1 }),
        relay_through: Some(RelayThroughInfo {
            version: 1,
            public_key: [0xaa; 32],
            token: [0xbb; 32],
        }),
        relay_addresses: Some(vec![make_addr("10.0.0.1", 8080)]),
    };
    let bytes = encode_noise_payload_to_bytes(&m).unwrap();
    let decoded = decode_noise_payload_from_bytes(&bytes).unwrap();
    assert_eq!(decoded, m);
}

#[test]
fn noise_payload_version_mismatch_returns_defaults() {
    // Version != 1 should return empty defaults
    let bytes = vec![2]; // version=2
    let decoded = decode_noise_payload_from_bytes(&bytes).unwrap();
    assert_eq!(decoded.version, 2);
    assert_eq!(decoded.error, 0);
    assert_eq!(decoded.firewall, 0);
    assert!(decoded.holepunch.is_none());
    assert!(decoded.addresses4.is_empty());
    assert!(decoded.udx.is_none());
}

#[test]
fn noise_payload_relay_through() {
    let m = NoisePayload {
        version: 1,
        error: ERROR_NONE,
        firewall: FIREWALL_OPEN,
        holepunch: None,
        addresses4: vec![],
        addresses6: vec![],
        udx: None,
        secret_stream: None,
        relay_through: Some(RelayThroughInfo {
            version: 1,
            public_key: [0xdd; 32],
            token: [0xee; 32],
        }),
        relay_addresses: None,
    };
    let bytes = encode_noise_payload_to_bytes(&m).unwrap();
    let decoded = decode_noise_payload_from_bytes(&bytes).unwrap();
    assert_eq!(decoded, m);
}

// ── HolepunchPayload tests ──────────────────────────────────────────────

#[test]
fn holepunch_payload_minimal() {
    let m = HolepunchPayload {
        error: ERROR_NONE,
        firewall: FIREWALL_UNKNOWN,
        round: 0,
        connected: false,
        punching: false,
        addresses: None,
        remote_address: None,
        token: None,
        remote_token: None,
    };
    let bytes = encode_holepunch_payload_to_bytes(&m).unwrap();
    assert_eq!(bytes, vec![0, 0, 0, 0]); // flags=0, error=0, firewall=0, round=0
    let decoded = decode_holepunch_payload_from_bytes(&bytes).unwrap();
    assert_eq!(decoded, m);
}

#[test]
fn holepunch_payload_connected_punching() {
    let m = HolepunchPayload {
        error: ERROR_NONE,
        firewall: FIREWALL_CONSISTENT,
        round: 3,
        connected: true,
        punching: true,
        addresses: None,
        remote_address: None,
        token: None,
        remote_token: None,
    };
    let bytes = encode_holepunch_payload_to_bytes(&m).unwrap();
    let decoded = decode_holepunch_payload_from_bytes(&bytes).unwrap();
    assert_eq!(decoded, m);
    // flags should have bits 0 and 1 set (CONNECTED|PUNCHING = 3)
    assert_eq!(bytes[0], 3);
}

#[test]
fn holepunch_payload_with_addresses() {
    let m = HolepunchPayload {
        error: ERROR_NONE,
        firewall: FIREWALL_OPEN,
        round: 1,
        connected: false,
        punching: true,
        addresses: Some(vec![
            make_addr("1.2.3.4", 1000),
            make_addr("5.6.7.8", 2000),
        ]),
        remote_address: Some(make_addr("10.0.0.1", 8080)),
        token: None,
        remote_token: None,
    };
    let bytes = encode_holepunch_payload_to_bytes(&m).unwrap();
    let decoded = decode_holepunch_payload_from_bytes(&bytes).unwrap();
    assert_eq!(decoded, m);
}

#[test]
fn holepunch_payload_with_tokens() {
    let m = HolepunchPayload {
        error: ERROR_NONE,
        firewall: FIREWALL_RANDOM,
        round: 5,
        connected: false,
        punching: false,
        addresses: None,
        remote_address: None,
        token: Some([0xaa; 32]),
        remote_token: Some([0xbb; 32]),
    };
    let bytes = encode_holepunch_payload_to_bytes(&m).unwrap();
    let decoded = decode_holepunch_payload_from_bytes(&bytes).unwrap();
    assert_eq!(decoded, m);
}

#[test]
fn holepunch_payload_all_fields() {
    let m = HolepunchPayload {
        error: ERROR_ABORTED,
        firewall: FIREWALL_CONSISTENT,
        round: 10,
        connected: true,
        punching: true,
        addresses: Some(vec![make_addr("192.168.1.1", 3000)]),
        remote_address: Some(make_addr("10.0.0.5", 4000)),
        token: Some([0xcc; 32]),
        remote_token: Some([0xdd; 32]),
    };
    let bytes = encode_holepunch_payload_to_bytes(&m).unwrap();
    let decoded = decode_holepunch_payload_from_bytes(&bytes).unwrap();
    assert_eq!(decoded, m);
    // flags = CONNECTED(1) | PUNCHING(2) | ADDRESSES(4) | REMOTE_ADDRESS(8) | TOKEN(16) | REMOTE_TOKEN(32) = 63
    assert_eq!(bytes[0], 63);
}

// ── Sub-type roundtrip tests ────────────────────────────────────────────

#[test]
fn relay_info_roundtrip() {
    let ri = RelayInfo {
        relay_address: make_addr("10.0.0.1", 8080),
        peer_address: make_addr("192.168.1.1", 3000),
    };
    let mut state = State::new();
    preencode_relay_info(&mut state, &ri);
    state.allocate();
    encode_relay_info(&mut state, &ri).unwrap();
    let mut state2 = State::from_buffer(&state.buffer);
    let decoded = decode_relay_info(&mut state2).unwrap();
    assert_eq!(decoded, ri);
}

#[test]
fn udx_info_roundtrip() {
    let ui = UdxInfo {
        version: 1,
        reusable_socket: true,
        id: 42,
        seq: 100,
    };
    let mut state = State::new();
    preencode_udx_info(&mut state, &ui);
    state.allocate();
    encode_udx_info(&mut state, &ui).unwrap();
    let mut state2 = State::from_buffer(&state.buffer);
    let decoded = decode_udx_info(&mut state2).unwrap();
    assert_eq!(decoded, ui);
}

#[test]
fn relay_through_info_roundtrip() {
    let rt = RelayThroughInfo {
        version: 1,
        public_key: [0xaa; 32],
        token: [0xbb; 32],
    };
    let mut state = State::new();
    preencode_relay_through_info(&mut state, &rt);
    state.allocate();
    encode_relay_through_info(&mut state, &rt).unwrap();
    let mut state2 = State::from_buffer(&state.buffer);
    let decoded = decode_relay_through_info(&mut state2).unwrap();
    assert_eq!(decoded, rt);
}

#[test]
fn mode_and_firewall_constants() {
    assert_eq!(MODE_FROM_CLIENT, 0);
    assert_eq!(MODE_FROM_SERVER, 1);
    assert_eq!(MODE_FROM_RELAY, 2);
    assert_eq!(MODE_FROM_SECOND_RELAY, 3);
    assert_eq!(MODE_REPLY, 4);
    assert_eq!(FIREWALL_UNKNOWN, 0);
    assert_eq!(FIREWALL_OPEN, 1);
    assert_eq!(FIREWALL_CONSISTENT, 2);
    assert_eq!(FIREWALL_RANDOM, 3);
}

#[test]
fn error_constants() {
    assert_eq!(ERROR_NONE, 0);
    assert_eq!(ERROR_ABORTED, 1);
    assert_eq!(ERROR_VERSION_MISMATCH, 2);
    assert_eq!(ERROR_TRY_LATER, 3);
    assert_eq!(ERROR_SEQ_REUSED, 16);
    assert_eq!(ERROR_SEQ_TOO_LOW, 17);
}


// ── Further cases ──

#[test]
fn announce_refresh_and_signature_flags() {
    let m = AnnounceMessage { peer: None, refresh: Some([1; 32]), signature: Some([2; 64]), bump: 0 };
    let bytes = encode_announce_to_bytes(&m).unwrap();
    assert_eq!(bytes[0], 0x06);
    assert_eq!(bytes.len(), 1 + 32 + 64);
}

#[test]
fn hyper_peer_truncated_fails() {
    let bytes = encode_hyper_peer_to_bytes(&make_peer(0x01)).unwrap();
    assert!(decode_hyper_peer_from_bytes(&bytes[..10]).is_err());
}

#[test]
fn noise_payload_firewall_byte() {
    let m = NoisePayload {
        version: 1,
        error: ERROR_NONE,
        firewall: FIREWALL_RANDOM,
        holepunch: None,
        addresses4: vec![],
        addresses6: vec![],
        udx: None,
        secret_stream: None,
        relay_through: None,
        relay_addresses: None,
    };
    let bytes = encode_noise_payload_to_bytes(&m).unwrap();
    assert_eq!(bytes, vec![1, 0, 0, 3]);
}

#[test]
fn handshake_bad_peer_address_is_refused() {
    let m = HandshakeMessage {
        mode: MODE_FROM_CLIENT,
        noise: vec![1, 2, 3],
        peer_address: Some(make_addr("nope", 1)),
        relay_address: None,
    };
    assert!(encode_handshake_to_bytes(&m).is_err());
}
