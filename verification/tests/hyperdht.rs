use peeroxide_dht::hyperdht::is_addr_private;
use peeroxide_dht::hyperdht_payloads::HolepunchPayload;
use peeroxide_dht::messages::Ipv4Peer;
use peeroxide_dht::secure_payload::SecurePayload;
use peeroxide_dht::compact_encoding::{decode_uint, State};
use peeroxide_dht::crypto::{sign_detached, verify_detached};
use peeroxide_dht::hex::encode;
use peeroxide_dht::hyperdht::{encode_compact_uint, HyperDhtConfig, KeyPair, ServerConfig, DEFAULT_BOOTSTRAP};
use peeroxide_dht::persistent::PersistentConfig;
use peeroxide_dht::query::parse_bootstrap_str;

#[test]
fn hyperdht_config_defaults() {
    let cfg = HyperDhtConfig::default();
    assert_eq!(cfg.dht.port, 0);
    assert_eq!(cfg.dht.host, "0.0.0.0");
    assert_eq!(cfg.dht.concurrency, 10);
    assert!(cfg.dht.bootstrap.is_empty());
    assert_eq!(cfg.persistent.max_records, PersistentConfig::default().max_records);
    assert_eq!(cfg.persistent.max_per_key, PersistentConfig::default().max_per_key);
}

#[test]
fn keypair_generate_produces_unique_keys() {
    let kp1 = KeyPair::generate();
    let kp2 = KeyPair::generate();
    assert_ne!(kp1.public_key, kp2.public_key);
}

#[test]
fn keypair_from_seed_deterministic() {
    let seed = [0x42u8; 32];
    let kp1 = KeyPair::from_seed(seed);
    let kp2 = KeyPair::from_seed(seed);
    assert_eq!(kp1.public_key, kp2.public_key);
    assert_eq!(kp1.secret_key, kp2.secret_key);
}

#[test]
fn keypair_public_key_matches_secret() {
    let kp = KeyPair::from_seed([0x11u8; 32]);
    assert_eq!(&kp.secret_key[32..], &kp.public_key);
}

#[test]
fn keypair_sign_verify_roundtrip() {
    let kp = KeyPair::generate();
    let msg = b"test message";
    let sig = sign_detached(msg, &kp.secret_key);
    assert!(verify_detached(&sig, msg, &kp.public_key));
}

#[test]
fn encode_compact_uint_round_trips() {
    for val in [0u64, 1, 127, 128, 255, 65535, u64::MAX / 2] {
        let bytes = encode_compact_uint(val);
        let mut s = State::from_buffer(&bytes);
        let decoded = decode_uint(&mut s).unwrap();
        assert_eq!(decoded, val, "compact uint round-trip failed for {val}");
    }
}

#[test]
fn default_bootstrap_has_three_nodes() {
    assert_eq!(DEFAULT_BOOTSTRAP.len(), 3);
    for entry in &DEFAULT_BOOTSTRAP {
        assert!(entry.contains('@'), "missing @ in {entry}");
        assert!(entry.ends_with(":49737"), "wrong port in {entry}");
    }
}

#[test]
fn with_public_bootstrap_populates_nodes() {
    let cfg = HyperDhtConfig::with_public_bootstrap();
    assert_eq!(cfg.dht.bootstrap.len(), 3);
    assert_eq!(cfg.dht.bootstrap[0], DEFAULT_BOOTSTRAP[0]);
    assert_eq!(cfg.dht.bootstrap[1], DEFAULT_BOOTSTRAP[1]);
    assert_eq!(cfg.dht.bootstrap[2], DEFAULT_BOOTSTRAP[2]);
    assert_eq!(cfg.dht.port, 0);
    assert!(cfg.dht.firewalled);
}

// ── Further cases ──

#[test]
fn default_bootstrap_parses_to_suggested_ips() {
    assert_eq!(parse_bootstrap_str(DEFAULT_BOOTSTRAP[0]), Some(("88.99.3.86".to_string(), 49737)));
}

#[test]
fn server_config_keeps_fields() {
    let kp = KeyPair::from_seed([3; 32]);
    let pk = kp.public_key;
    let c = ServerConfig::new(kp, 2);
    assert_eq!(c.firewall, 2);
    assert_eq!(c.key_pair.public_key, pk);
}

#[test]
fn compact_uint_exact_bytes() {
    assert_eq!(encode_compact_uint(0xfd), vec![0xfd, 0xfd, 0x00]);
}

#[test]
fn hex_encode_two_digits_per_byte() {
    assert_eq!(encode(&[0x00, 0x0f, 0xa0, 0xff]), "000fa0ff");
    assert_eq!(encode(&[]), "");
}

fn peer_state(secret: u8, key: u8) -> peeroxide_dht::hyperdht::ServerPeerState {
    peeroxide_dht::hyperdht::ServerPeerState {
        holepunch_secret: [secret; 32],
        remote_public_key: [key; 32],
        client_address: peeroxide_dht::messages::Ipv4Peer { host: "10.0.0.1".into(), port: 1 },
        local_stream_id: 7,
        remote_udx: None,
    }
}

#[test]
fn server_session_insert_replaces_same_key() {
    let mut s = peeroxide_dht::hyperdht::ServerSession::new();
    s.insert(peer_state(1, 9));
    s.insert(peer_state(2, 8));
    assert_eq!(s.len(), 2);
    s.insert(peer_state(3, 9));
    assert_eq!(s.len(), 2);
}

#[test]
fn server_session_answers_holepunch() {

    let mut s = peeroxide_dht::hyperdht::ServerSession::new();
    s.insert(peer_state(1, 9));
    s.insert(peer_state(2, 8));
    let client = SecurePayload::with_local_secret([2; 32], [5; 32]);
    let hp = HolepunchPayload {
        error: 0,
        firewall: 1,
        round: 4,
        connected: false,
        punching: true,
        addresses: None,
        remote_address: None,
        token: Some([0x11; 32]),
        remote_token: None,
    };
    let sealed = client.encrypt(&hp).unwrap();
    assert_eq!(s.matching_state(&sealed), Some(1));
    let peer = Ipv4Peer { host: "1.2.3.4".into(), port: 4000 };
    let (i, remote, reply) = s.answer_holepunch(2, &sealed, &peer).unwrap();
    assert_eq!(i, 1);
    assert_eq!(remote, hp);
    let back = client.decrypt(&reply).unwrap();
    assert_eq!(back.error, 0);
    assert_eq!(back.firewall, 2);
    assert_eq!(back.round, 4);
    assert!(back.punching);
    assert!(!back.connected);
    assert_eq!(back.addresses, Some(vec![peer.clone()]));
    assert_eq!(back.remote_address, Some(peer.clone()));
    assert_eq!(back.remote_token, Some([0x11; 32]));
    assert!(back.token.is_some());

    let stranger = SecurePayload::with_local_secret([7; 32], [5; 32]).encrypt(&hp).unwrap();
    assert_eq!(s.matching_state(&stranger), None);
    assert!(s.answer_holepunch(2, &stranger, &peer).is_none());
}

#[test]
fn private_addresses_detected() {
    for host in [
        "127.0.0.1", "10.1.2.3", "172.16.0.1", "172.31.255.255", "192.168.0.1", "169.254.1.1", "255.255.255.255",
        "0.0.0.0", "192.0.2.5", "198.51.100.7", "203.0.113.9", "100.64.0.1", "100.127.255.255", "not-an-ip",
        "1.2.3", "01.2.3.4", "1.2.3.4.5", "",
    ] {
        assert!(is_addr_private(host), "{host}");
    }
    for host in ["1.2.3.4", "8.8.8.8", "172.15.0.1", "172.32.0.1", "100.63.0.1", "100.128.0.1", "192.169.0.1"] {
        assert!(!is_addr_private(host), "{host}");
    }
}

#[test]
fn keypair_to_noise_keypair_keeps_keys() {
    let kp = KeyPair::from_seed([9u8; 32]);
    let nk = kp.to_noise_keypair();
    assert_eq!(nk.public_key, kp.public_key);
    assert_eq!(nk.secret_key, kp.secret_key);
}
