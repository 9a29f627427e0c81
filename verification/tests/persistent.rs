use peeroxide_dht::compact_encoding::{encode_uint, preencode_uint, State};
use peeroxide_dht::crypto::{ann_signable, hash, mutable_signable, ns_announce, ns_mutable_put, sign_detached};
use peeroxide_dht::hyperdht_messages::{
    decode_lookup_raw_reply_from_bytes, decode_mutable_get_response_from_bytes, encode_announce_to_bytes,
    encode_hyper_peer_to_bytes, encode_mutable_put_request_to_bytes, AnnounceMessage, HyperPeer, MutablePutRequest,
    ANNOUNCE, IMMUTABLE_GET, IMMUTABLE_PUT, LOOKUP, MUTABLE_GET, MUTABLE_PUT,
};
use peeroxide_dht::messages::Ipv4Peer;
use peeroxide_dht::persistent::{
    Age, HandlerReply, IncomingHyperRequest, LruCache, Persistent, PersistentConfig, RecordCache, SEQ_REUSED, SEQ_TOO_LOW,
};


fn make_persistent() -> Persistent {
    Persistent::new(PersistentConfig::default())
}

fn make_keypair() -> ([u8; 32], [u8; 64]) {
    let seed = [0x42u8; 32];
    let sk = ed25519_dalek::SigningKey::from_bytes(&seed);
    let pk: [u8; 32] = sk.verifying_key().to_bytes();
    let mut secret = [0u8; 64];
    secret[..32].copy_from_slice(&seed);
    secret[32..].copy_from_slice(&pk);
    (pk, secret)
}

fn dummy_peer() -> Ipv4Peer {
    Ipv4Peer {
        host: "127.0.0.1".to_string(),
        port: 1234,
    }
}

// ── RecordCache tests ─────────────────────────────────────────────────────

#[test]
fn record_cache_add_get() {
    let mut cache = RecordCache::new(100, Age::from_secs(60), 20);
    cache.add("topic1", [0xaau8; 32], b"record1".to_vec());
    let records = cache.get("topic1", 10);
    assert_eq!(records.len(), 1);
    assert_eq!(records[0], b"record1");
}

#[test]
fn record_cache_replace_same_pubkey() {
    let mut cache = RecordCache::new(100, Age::from_secs(60), 20);
    cache.add("topic1", [0xaau8; 32], b"v1".to_vec());
    cache.add("topic1", [0xaau8; 32], b"v2".to_vec());
    let records = cache.get("topic1", 10);
    assert_eq!(records.len(), 1);
    assert_eq!(records[0], b"v2");
}

#[test]
fn record_cache_remove() {
    let mut cache = RecordCache::new(100, Age::from_secs(60), 20);
    cache.add("topic1", [0xaau8; 32], b"record1".to_vec());
    cache.remove("topic1", &[0xaau8; 32]);
    let records = cache.get("topic1", 10);
    assert!(records.is_empty());
}

#[test]
fn record_cache_max_per_key() {
    let mut cache = RecordCache::new(1000, Age::from_secs(60), 3);
    for i in 0u8..5 {
        cache.add("topic1", [i; 32], vec![i]);
    }
    let records = cache.get("topic1", 10);
    assert!(records.len() <= 3);
}

#[test]
fn record_cache_destroy() {
    let mut cache = RecordCache::new(100, Age::from_secs(60), 20);
    cache.add("topic1", [0xaau8; 32], b"record1".to_vec());
    cache.destroy();
    assert!(cache.get("topic1", 10).is_empty());
}

// ── LruCache tests ────────────────────────────────────────────────────────

#[test]
fn lru_cache_set_get() {
    let mut cache = LruCache::new(100, Age::from_secs(60));
    cache.set("k1", b"value".to_vec());
    assert_eq!(cache.get("k1"), Some(b"value".to_vec()));
}

#[test]
fn lru_cache_miss() {
    let cache = LruCache::new(100, Age::from_secs(60));
    assert_eq!(cache.get("nonexistent"), None);
}

#[test]
fn lru_cache_delete() {
    let mut cache = LruCache::new(100, Age::from_secs(60));
    cache.set("k1", b"value".to_vec());
    cache.delete("k1");
    assert_eq!(cache.get("k1"), None);
}

#[test]
fn on_lookup_no_target_is_silent() {
    let mut p = make_persistent();
    let req = IncomingHyperRequest {
        command: LOOKUP,
        target: None,
        token: None,
        value: None,
        from: dummy_peer(),
        id: None,
    };
    matches!(p.on_lookup(&req), HandlerReply::Silent);
}

#[test]
fn on_lookup_empty_returns_none_value() {
    let mut p = make_persistent();
    let req = IncomingHyperRequest {
        command: LOOKUP,
        target: Some([0u8; 32]),
        token: None,
        value: None,
        from: dummy_peer(),
        id: None,
    };
    matches!(p.on_lookup(&req), HandlerReply::Value(None));
}

// ── on_immutable_put/get round-trip ───────────────────────────────────────

#[test]
fn immutable_put_get_roundtrip() {
    let mut p = make_persistent();
    let data = b"hello world".to_vec();
    let target = hash(&data);

    let put_req = IncomingHyperRequest {
        command: IMMUTABLE_PUT,
        target: Some(target),
        token: Some([0xbbu8; 32]),
        value: Some(data.clone()),
        from: dummy_peer(),
        id: None,
    };
    let reply = p.on_immutable_put(&put_req);
    assert!(matches!(reply, HandlerReply::Value(None)));

    let get_req = IncomingHyperRequest {
        command: IMMUTABLE_GET,
        target: Some(target),
        token: None,
        value: None,
        from: dummy_peer(),
        id: None,
    };
    let reply = p.on_immutable_get(&get_req);
    if let HandlerReply::Value(Some(v)) = reply {
        assert_eq!(v, data);
    } else {
        panic!("expected Value(Some(...))");
    }
}

#[test]
fn immutable_put_bad_hash_is_silent() {
    let mut p = make_persistent();
    let put_req = IncomingHyperRequest {
        command: IMMUTABLE_PUT,
        target: Some([0xffu8; 32]),
        token: Some([0xbbu8; 32]),
        value: Some(b"wrong".to_vec()),
        from: dummy_peer(),
        id: None,
    };
    assert!(matches!(p.on_immutable_put(&put_req), HandlerReply::Silent));
}

// ── on_mutable_put/get round-trip ─────────────────────────────────────────

#[test]
fn mutable_put_get_roundtrip() {
    let mut p = make_persistent();
    let (pk, sk) = make_keypair();
    let target = hash(&pk);
    let value = b"my value".to_vec();
    let seq: u64 = 1;

    let signable = mutable_signable(&ns_mutable_put(), seq, &value);
    let sig = sign_detached(&signable, &sk);

    let put_msg = MutablePutRequest {
        public_key: pk,
        seq,
        value: value.clone(),
        signature: sig,
    };
    let put_bytes =
        encode_mutable_put_request_to_bytes(&put_msg).unwrap();

    let put_req = IncomingHyperRequest {
        command: MUTABLE_PUT,
        target: Some(target),
        token: Some([0u8; 32]),
        value: Some(put_bytes),
        from: dummy_peer(),
        id: None,
    };

    let reply = p.on_mutable_put(&put_req);
    assert!(matches!(reply, HandlerReply::Value(None)));

    // Get with seq=0 (any seq >= 0 matches).
    let mut seq_state = State::new();
    preencode_uint(&mut seq_state, 0u64);
    seq_state.allocate();
    encode_uint(&mut seq_state, 0u64);

    let get_req = IncomingHyperRequest {
        command: MUTABLE_GET,
        target: Some(target),
        token: None,
        value: Some(seq_state.buffer),
        from: dummy_peer(),
        id: None,
    };

    let reply = p.on_mutable_get(&get_req);
    if let HandlerReply::Value(Some(v)) = reply {
        let decoded =
            decode_mutable_get_response_from_bytes(&v).unwrap();
        assert_eq!(decoded.seq, seq);
        assert_eq!(decoded.value, value);
    } else {
        panic!("expected Value(Some(...))");
    }
}

#[test]
fn mutable_put_seq_too_low() {
    let mut p = make_persistent();
    let (pk, sk) = make_keypair();
    let target = hash(&pk);

    let put_with_seq = |seq: u64| {
        let signable = mutable_signable(&ns_mutable_put(), seq, b"v");
        let sig = sign_detached(&signable, &sk);
        let put_msg = MutablePutRequest {
            public_key: pk,
            seq,
            value: b"v".to_vec(),
            signature: sig,
        };
        encode_mutable_put_request_to_bytes(&put_msg).unwrap()
    };

    let req = |put_bytes: Vec<u8>| IncomingHyperRequest {
        command: MUTABLE_PUT,
        target: Some(target),
        token: Some([0u8; 32]),
        value: Some(put_bytes),
        from: dummy_peer(),
        id: None,
    };

    // Store seq=5.
    p.on_mutable_put(&req(put_with_seq(5)));

    // Try seq=3 → TOO_LOW.
    assert!(matches!(
        p.on_mutable_put(&req(put_with_seq(3))),
        HandlerReply::Error(17)
    ));
}

#[test]
fn mutable_put_seq_reused() {
    let mut p = make_persistent();
    let (pk, sk) = make_keypair();
    let target = hash(&pk);

    let put_with_seq = |seq: u64| {
        let signable = mutable_signable(&ns_mutable_put(), seq, b"v");
        let sig = sign_detached(&signable, &sk);
        let put_msg = MutablePutRequest {
            public_key: pk,
            seq,
            value: b"v".to_vec(),
            signature: sig,
        };
        encode_mutable_put_request_to_bytes(&put_msg).unwrap()
    };

    let req = |put_bytes: Vec<u8>| IncomingHyperRequest {
        command: MUTABLE_PUT,
        target: Some(target),
        token: Some([0u8; 32]),
        value: Some(put_bytes),
        from: dummy_peer(),
        id: None,
    };

    p.on_mutable_put(&req(put_with_seq(5)));
    assert!(matches!(
        p.on_mutable_put(&req(put_with_seq(5))),
        HandlerReply::Error(16)
    ));
}

#[test]
fn on_announce_invalid_signature_is_silent() {
    let mut p = make_persistent();
    let (pk, _sk) = make_keypair();
    let node_id = [0x00u8; 32];
    let target = hash(&pk);

    let peer = HyperPeer {
        public_key: pk,
        relay_addresses: vec![],
    };

    // Use a bad signature.
    let ann = AnnounceMessage {
        peer: Some(peer),
        refresh: None,
        signature: Some([0xffu8; 64]),
        bump: 0,
    };
    let ann_bytes =
        encode_announce_to_bytes(&ann).unwrap();

    let req = IncomingHyperRequest {
        command: ANNOUNCE,
        target: Some(target),
        token: Some([0u8; 32]),
        value: Some(ann_bytes),
        from: dummy_peer(),
        id: Some(node_id),
    };

    assert!(matches!(
        p.on_announce(&req, &node_id),
        HandlerReply::Silent
    ));
}


// ── Further cases ──

#[test]
fn announce_then_lookup_finds_the_peer() {
    let mut p = make_persistent();
    let (pk, sk) = make_keypair();
    let node_id = [0x07u8; 32];
    let target = [0x55u8; 32];
    let token = [0x01u8; 32];
    let peer = HyperPeer { public_key: pk, relay_addresses: vec![] };
    let peer_bytes = encode_hyper_peer_to_bytes(&peer).unwrap();
    let signable = ann_signable(&target, &token, &node_id, &peer_bytes, &[], &ns_announce());
    let sig = sign_detached(&signable, &sk);
    let ann = AnnounceMessage { peer: Some(peer), refresh: None, signature: Some(sig), bump: 0 };
    let req = IncomingHyperRequest {
        command: ANNOUNCE,
        target: Some(target),
        token: Some(token),
        value: Some(encode_announce_to_bytes(&ann).unwrap()),
        from: dummy_peer(),
        id: Some(node_id),
    };
    assert!(matches!(p.on_announce(&req, &node_id), HandlerReply::ValueNoToken(None)));

    let lookup = IncomingHyperRequest {
        command: LOOKUP,
        target: Some(target),
        token: None,
        value: None,
        from: dummy_peer(),
        id: None,
    };
    match p.on_lookup(&lookup) {
        HandlerReply::Value(Some(bytes)) => {
            let reply = decode_lookup_raw_reply_from_bytes(&bytes).unwrap();
            assert_eq!(reply.peers.len(), 1);
            assert_eq!(reply.peers[0].public_key, pk);
        },
        other => panic!("unexpected {other:?}"),
    }
}

#[test]
fn mutable_put_wrong_target_is_silent() {
    let mut p = make_persistent();
    let (pk, sk) = make_keypair();
    let signable = mutable_signable(&ns_mutable_put(), 1, b"v");
    let sig = sign_detached(&signable, &sk);
    let put = MutablePutRequest { public_key: pk, seq: 1, value: b"v".to_vec(), signature: sig };
    let req = IncomingHyperRequest {
        command: MUTABLE_PUT,
        target: Some([0u8; 32]),
        token: Some([0u8; 32]),
        value: Some(encode_mutable_put_request_to_bytes(&put).unwrap()),
        from: dummy_peer(),
        id: None,
    };
    assert!(matches!(p.on_mutable_put(&req), HandlerReply::Silent));
}

#[test]
fn error_code_constants() {
    assert_eq!(SEQ_REUSED, 16);
    assert_eq!(SEQ_TOO_LOW, 17);
}

#[test]
fn lru_cache_full_drops_oldest() {
    let mut cache = LruCache::new(2, Age::from_secs(60));
    cache.set("a", vec![1]);
    cache.set("b", vec![2]);
    cache.set("c", vec![3]);
    assert_eq!(cache.get("a"), None);
    assert_eq!(cache.get("b"), Some(vec![2]));
    assert_eq!(cache.get("c"), Some(vec![3]));
}

#[test]
fn record_cache_max_size_drops_oldest() {
    let mut cache = RecordCache::new(2, Age::from_secs(60), 20);
    cache.add("t1", [1; 32], vec![1]);
    cache.add("t2", [2; 32], vec![2]);
    cache.add("t3", [3; 32], vec![3]);
    assert!(cache.get("t1", 10).is_empty());
    assert_eq!(cache.get("t2", 10), vec![vec![2]]);
    assert_eq!(cache.get("t3", 10), vec![vec![3]]);
}

#[test]
fn record_cache_get_respects_max() {
    let mut cache = RecordCache::new(100, Age::from_secs(60), 20);
    for i in 0u8..5 {
        cache.add("t", [i; 32], vec![i]);
    }
    assert_eq!(cache.get("t", 2), vec![vec![0], vec![1]]);
}

#[test]
fn find_peer_without_route_is_none() {
    let p = make_persistent();
    let req = IncomingHyperRequest {
        command: 2,
        target: Some([1; 32]),
        token: None,
        value: None,
        from: dummy_peer(),
        id: None,
    };
    assert!(matches!(p.on_find_peer(&req), HandlerReply::Value(None)));
}

#[test]
fn lru_cache_reads_back_within_its_age() {
    let mut cache = LruCache::with_age_nanos(100, 60_000_000_000);
    cache.set_at("k1", b"value".to_vec(), 1_000);
    assert_eq!(cache.get_at("k1", 1_000 + 59_000_000_000), Some(b"value".to_vec()));
    assert_eq!(cache.get_at("k1", 1_000 + 60_000_000_000), None);
    assert_eq!(cache.get_at("nonexistent", 1_000), None);
}

#[test]
fn record_cache_reads_back_within_its_age() {
    let mut cache = RecordCache::with_age_nanos(100, 60_000_000_000, 20);
    cache.add_at("topic1", [0xaa; 32], b"v1".to_vec(), 5);
    cache.add_at("topic1", [0xaa; 32], b"v2".to_vec(), 6);
    assert_eq!(cache.get_at("topic1", 10, 7), vec![b"v2".to_vec()]);
}

#[test]
fn fresh_store_lookup_is_empty() {
    let mut p = make_persistent();
    let lookup = IncomingHyperRequest {
        command: LOOKUP,
        target: Some([0u8; 32]),
        token: None,
        value: None,
        from: dummy_peer(),
        id: None,
    };
    assert!(matches!(p.on_lookup(&lookup), HandlerReply::Value(None)));
}

#[test]
fn default_config_keeps_values_twenty_minutes() {
    let c = PersistentConfig::default();
    assert_eq!(c.max_record_age.as_nanos(), 1_200_000_000_000);
    assert_eq!(c.max_lru_age.as_nanos(), 1_200_000_000_000);
    assert_eq!(Age::from_secs(60).as_nanos(), 60_000_000_000);
}
