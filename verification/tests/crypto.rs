use peeroxide_dht::crypto::{
    ann_signable, discovery_key, dht_namespace, hash, hash_batch, mutable_signable, namespace, ns_announce,
    ns_mutable_put, ns_peer_handshake, ns_peer_holepunch, ns_unannounce, sign_detached, verify_detached,
};

#[test]
fn namespace_length() {
    let ns = namespace("hyperswarm/dht", &[0, 1, 2, 3, 4]);
    assert_eq!(ns.len(), 5);
    for arr in &ns {
        assert_eq!(arr.len(), 32);
    }
}

#[test]
fn namespace_deterministic() {
    let a = namespace("hyperswarm/dht", &[4]);
    let b = namespace("hyperswarm/dht", &[4]);
    assert_eq!(a, b);
}

#[test]
fn namespace_different_ids_differ() {
    let ns = namespace("hyperswarm/dht", &[0, 1, 2, 3, 4, 5, 6]);
    for i in 0..ns.len() {
        for j in (i + 1)..ns.len() {
            assert_ne!(ns[i], ns[j], "namespace[{i}] == namespace[{j}]");
        }
    }
}

#[test]
fn namespace_statics_non_zero() {
    assert_ne!(ns_announce(), [0u8; 32]);
    assert_ne!(ns_unannounce(), [0u8; 32]);
    assert_ne!(ns_mutable_put(), [0u8; 32]);
    assert_ne!(ns_peer_handshake(), [0u8; 32]);
    assert_ne!(ns_peer_holepunch(), [0u8; 32]);
}

#[test]
fn namespace_statics_match_inline() {
    let ns = namespace("hyperswarm/dht", &[4, 5, 6, 0, 1]);
    assert_eq!(ns_announce(), ns[0]);
    assert_eq!(ns_unannounce(), ns[1]);
    assert_eq!(ns_mutable_put(), ns[2]);
    assert_eq!(ns_peer_handshake(), ns[3]);
    assert_eq!(ns_peer_holepunch(), ns[4]);
}

#[test]
fn hash_is_deterministic() {
    assert_eq!(hash(b"hello"), hash(b"hello"));
    assert_ne!(hash(b"hello"), hash(b"world"));
}

#[test]
fn hash_batch_equals_sequential() {
    let a = hash_batch(&[b"hello", b"world"]);
    let b = hash_batch(&[b"hello", b"world"]);
    assert_eq!(a, b);
    let concat = hash(b"helloworld");
    assert_eq!(a, concat);
    let c = hash_batch(&[b"hell", b"oworld"]);
    assert_eq!(a, c);
}

#[test]
fn discovery_key_deterministic() {
    let pk = [0x42u8; 32];
    assert_eq!(discovery_key(&pk), discovery_key(&pk));
    let pk2 = [0x43u8; 32];
    assert_ne!(discovery_key(&pk), discovery_key(&pk2));
}

fn key_pair_from_seed(seed: [u8; 32]) -> ([u8; 32], [u8; 64]) {
    let signing_key = ed25519_dalek::SigningKey::from_bytes(&seed);
    let pk: [u8; 32] = signing_key.verifying_key().to_bytes();
    let mut sk = [0u8; 64];
    sk[..32].copy_from_slice(&seed);
    sk[32..].copy_from_slice(&pk);
    (pk, sk)
}

#[test]
fn sign_verify_roundtrip() {
    let (pk, sk) = key_pair_from_seed([0x42u8; 32]);
    let msg = b"test message";
    let sig = sign_detached(msg, &sk);
    assert!(verify_detached(&sig, msg, &pk));
}

#[test]
fn verify_bad_signature_fails() {
    let (pk, sk) = key_pair_from_seed([0x42u8; 32]);
    let msg = b"test message";
    let mut sig = sign_detached(msg, &sk);
    sig[0] ^= 0xff;
    assert!(!verify_detached(&sig, msg, &pk));
}

#[test]
fn ann_signable_length() {
    let target = [0xaau8; 32];
    let token = [0xbbu8; 32];
    let id = [0xccu8; 32];
    let peer_encoded = [0u8; 33];
    let refresh = [];
    let ns = ns_announce();
    let s = ann_signable(&target, &token, &id, &peer_encoded, &refresh, &ns);
    assert_eq!(s.len(), 64);
    assert_eq!(&s[..32], ns.as_slice());
}

#[test]
fn mutable_signable_length() {
    let ns = ns_mutable_put();
    let s = mutable_signable(&ns, 42, b"hello");
    assert_eq!(s.len(), 64);
    assert_eq!(&s[..32], ns.as_slice());
}

// ── Further cases ──

#[test]
fn dht_namespace_matches_namespace() {
    let ns = namespace("hyperswarm/dht", &[7]);
    assert_eq!(dht_namespace(7), ns[0]);
}

#[test]
fn discovery_key_is_keyed_hash_not_plain_hash() {
    let pk = [0x42u8; 32];
    assert_ne!(discovery_key(&pk), hash(&pk));
}

#[test]
fn ann_signable_hashes_the_fields() {
    let ns = ns_announce();
    let s = ann_signable(&[1; 32], &[2; 32], &[3; 32], &[4, 5], &[6], &ns);
    let mut joined = Vec::new();
    joined.extend_from_slice(&[1; 32]);
    joined.extend_from_slice(&[3; 32]);
    joined.extend_from_slice(&[2; 32]);
    joined.extend_from_slice(&[4, 5]);
    joined.extend_from_slice(&[6]);
    assert_eq!(&s[32..], hash(&joined).as_slice());
}

#[test]
fn signature_over_other_message_fails() {
    let (pk, sk) = key_pair_from_seed([0x07u8; 32]);
    let sig = sign_detached(b"one", &sk);
    assert!(!verify_detached(&sig, b"two", &pk));
}
