use peeroxide_dht::noise::{
    ed25519_dh, generate_keypair, hkdf, hmac_blake2b, keypair_from_seed, CipherState, Handshake,
    HandshakeIK, NoiseError,
};

/// Verify Ed25519 DH is symmetric: `dh(sk_a, pk_b) == dh(sk_b, pk_a)`.
#[test]
fn ed25519_dh_symmetric() {
    let kp_a = generate_keypair();
    let kp_b = generate_keypair();

    let shared_ab = ed25519_dh(&kp_a.secret_key, &kp_b.public_key).unwrap();
    let shared_ba = ed25519_dh(&kp_b.secret_key, &kp_a.public_key).unwrap();

    assert_eq!(shared_ab, shared_ba);
}

/// Encrypt then decrypt produces the original plaintext.
#[test]
fn cipher_roundtrip() {
    let key = [0x42u8; 32];
    let mut enc = CipherState::new();
    enc.set_key(key);
    let mut dec = CipherState::new();
    dec.set_key(key);

    let plaintext = b"hello noise world";
    let ad = b"additional data";

    let ciphertext = enc.encrypt(plaintext, ad).unwrap();
    let recovered = dec.decrypt(&ciphertext, ad).unwrap();

    assert_eq!(recovered, plaintext);
}

/// With no key set, encrypt and decrypt are identity operations.
#[test]
fn cipher_no_key_passthrough() {
    let mut cs = CipherState::new();
    assert!(!cs.has_key());

    let data = b"passthrough data";
    let enc = cs.encrypt(data, &[]).unwrap();
    assert_eq!(enc, data);

    let dec = cs.decrypt(data, &[]).unwrap();
    assert_eq!(dec, data);
}

/// Same inputs always produce the same HMAC output.
#[test]
fn hmac_deterministic() {
    let key = b"test-key";
    let data = b"test-data";
    let out1 = hmac_blake2b(key, data);
    let out2 = hmac_blake2b(key, data);
    assert_eq!(out1, out2);
}

/// HKDF outputs are different from each other.
#[test]
fn hkdf_produces_different_outputs() {
    let ck = [0x11u8; 64];
    let ikm = [0xaau8; 32];
    let (out1, out2) = hkdf(&ck, &ikm);
    assert_ne!(out1, out2);
}

/// Full Noise XX handshake between initiator and responder.
#[test]
fn handshake_xx_completes() {
    let init_kp = generate_keypair();
    let resp_kp = generate_keypair();
    let resp_static_pub = resp_kp.public_key;

    let mut initiator = Handshake::new(true, init_kp);
    let mut responder = Handshake::new(false, resp_kp);

    // M1: Initiator → Responder
    let m1 = initiator.send().expect("initiator send M1");
    assert!(!initiator.complete(), "initiator should not be done after M1");

    responder.recv(&m1).expect("responder recv M1");
    assert!(!responder.complete(), "responder should not be done after M1");

    // M2: Responder → Initiator
    let m2 = responder.send().expect("responder send M2");
    assert!(!responder.complete(), "responder should not be done after M2");

    initiator.recv(&m2).expect("initiator recv M2");
    assert!(!initiator.complete(), "initiator should not be done after M2");

    // M3: Initiator → Responder
    let m3 = initiator.send().expect("initiator send M3");
    assert!(initiator.complete(), "initiator should be done after M3");

    let resp_result = responder
        .recv(&m3)
        .expect("responder recv M3")
        .expect("responder should return HandshakeResult");
    assert!(responder.complete(), "responder should be done after M3");

    let init_result = initiator.result().expect("initiator result should be set");

    // Session keys must agree
    assert_eq!(init_result.tx, resp_result.rx, "initiator.tx == responder.rx");
    assert_eq!(init_result.rx, resp_result.tx, "initiator.rx == responder.tx");

    // Handshake hashes must agree
    assert_eq!(
        init_result.handshake_hash, resp_result.handshake_hash,
        "handshake hashes must match"
    );

    // Each side should know the other's static public key
    assert_eq!(
        init_result.remote_public_key, resp_static_pub,
        "initiator should learn responder's static pubkey"
    );
}

// ── Noise IK tests ──────────────────────────────────────────────────────

#[test]
fn handshake_ik_completes() {
    let init_kp = generate_keypair();
    let resp_kp = generate_keypair();
    let resp_pub = resp_kp.public_key;
    let init_pub = init_kp.public_key;
    let prologue = b"test-prologue";

    let mut initiator = HandshakeIK::new_initiator(init_kp, resp_pub, prologue);
    let mut responder = HandshakeIK::new_responder(resp_kp, prologue);

    let payload_1 = b"hello from initiator";
    let m1 = initiator.send(payload_1).expect("initiator send M1");
    assert!(!initiator.complete());

    let recv_payload_1 = responder.recv(&m1).expect("responder recv M1");
    assert!(!responder.complete());
    assert_eq!(recv_payload_1, payload_1);

    let payload_2 = b"hello from responder";
    let m2 = responder.send(payload_2).expect("responder send M2");
    assert!(responder.complete());

    let recv_payload_2 = initiator.recv(&m2).expect("initiator recv M2");
    assert!(initiator.complete());
    assert_eq!(recv_payload_2, payload_2);

    let init_result = initiator.result().expect("initiator result");
    let resp_result = responder.result().expect("responder result");

    assert_eq!(init_result.tx, resp_result.rx);
    assert_eq!(init_result.rx, resp_result.tx);
    assert_eq!(init_result.handshake_hash, resp_result.handshake_hash);
    assert_eq!(init_result.remote_public_key, resp_pub);
    assert_eq!(resp_result.remote_public_key, init_pub);
}

#[test]
fn handshake_ik_empty_payloads() {
    let init_kp = generate_keypair();
    let resp_kp = generate_keypair();
    let prologue = b"";

    let mut initiator = HandshakeIK::new_initiator(init_kp, resp_kp.public_key, prologue);
    let mut responder = HandshakeIK::new_responder(resp_kp, prologue);

    let m1 = initiator.send(&[]).unwrap();
    let p1 = responder.recv(&m1).unwrap();
    assert!(p1.is_empty());

    let m2 = responder.send(&[]).unwrap();
    let p2 = initiator.recv(&m2).unwrap();
    assert!(p2.is_empty());

    assert!(initiator.complete());
    assert!(responder.complete());

    let ir = initiator.result().unwrap();
    let rr = responder.result().unwrap();
    assert_eq!(ir.tx, rr.rx);
    assert_eq!(ir.rx, rr.tx);
}

#[test]
fn handshake_ik_different_prologue_fails() {
    let init_kp = generate_keypair();
    let resp_kp = generate_keypair();

    let mut initiator = HandshakeIK::new_initiator(init_kp, resp_kp.public_key, b"prologue-A");
    let mut responder = HandshakeIK::new_responder(resp_kp, b"prologue-B");

    let m1 = initiator.send(b"test").unwrap();
    assert!(responder.recv(&m1).is_err());
}

#[test]
fn handshake_ik_wrong_remote_key_fails() {
    let init_kp = generate_keypair();
    let resp_kp = generate_keypair();
    let wrong_kp = generate_keypair();
    let prologue = b"test";

    let mut initiator = HandshakeIK::new_initiator(init_kp, wrong_kp.public_key, prologue);
    let mut responder = HandshakeIK::new_responder(resp_kp, prologue);

    let m1 = initiator.send(b"test").unwrap();
    assert!(responder.recv(&m1).is_err());
}

#[test]
fn handshake_ik_m1_too_short() {
    let resp_kp = generate_keypair();
    let mut responder = HandshakeIK::new_responder(resp_kp, b"");
    assert!(responder.recv(&[0u8; 95]).is_err());
}

#[test]
fn handshake_ik_m2_too_short() {
    let init_kp = generate_keypair();
    let resp_kp = generate_keypair();
    let prologue = b"";

    let mut initiator = HandshakeIK::new_initiator(init_kp, resp_kp.public_key, prologue);
    let mut responder = HandshakeIK::new_responder(resp_kp, prologue);

    let m1 = initiator.send(&[]).unwrap();
    let _ = responder.recv(&m1).unwrap();
    let _ = responder.send(&[]).unwrap();

    assert!(initiator.recv(&[0u8; 47]).is_err());
}

#[test]
fn handshake_ik_remote_static_key_available() {
    let init_kp = generate_keypair();
    let resp_kp = generate_keypair();
    let resp_pub = resp_kp.public_key;
    let init_pub = init_kp.public_key;
    let prologue = b"";

    let mut initiator = HandshakeIK::new_initiator(init_kp, resp_pub, prologue);
    let mut responder = HandshakeIK::new_responder(resp_kp, prologue);

    assert_eq!(initiator.remote_static_key(), Some(&resp_pub));
    assert_eq!(responder.remote_static_key(), None);

    let m1 = initiator.send(&[]).unwrap();
    let _ = responder.recv(&m1).unwrap();
    assert_eq!(responder.remote_static_key(), Some(&init_pub));

    let m2 = responder.send(&[]).unwrap();
    let _ = initiator.recv(&m2).unwrap();
    assert_eq!(initiator.remote_static_key(), Some(&resp_pub));
}

#[test]
fn handshake_ik_large_payload() {
    let init_kp = generate_keypair();
    let resp_kp = generate_keypair();
    let prologue = b"";

    let mut initiator = HandshakeIK::new_initiator(init_kp, resp_kp.public_key, prologue);
    let mut responder = HandshakeIK::new_responder(resp_kp, prologue);

    let big_payload = vec![0xab; 4096];
    let m1 = initiator.send(&big_payload).unwrap();
    let recv_big = responder.recv(&m1).unwrap();
    assert_eq!(recv_big, big_payload);

    let m2 = responder.send(&big_payload).unwrap();
    let recv_big_2 = initiator.recv(&m2).unwrap();
    assert_eq!(recv_big_2, big_payload);
}

#[test]
fn handshake_ik_send_after_complete_errors() {
    let init_kp = generate_keypair();
    let resp_kp = generate_keypair();
    let prologue = b"";

    let mut initiator = HandshakeIK::new_initiator(init_kp, resp_kp.public_key, prologue);
    let mut responder = HandshakeIK::new_responder(resp_kp, prologue);

    let m1 = initiator.send(&[]).unwrap();
    let _ = responder.recv(&m1).unwrap();
    let m2 = responder.send(&[]).unwrap();
    let _ = initiator.recv(&m2).unwrap();

    assert!(initiator.send(&[]).is_err());
    assert!(initiator.recv(&[0u8; 48]).is_err());
    assert!(responder.send(&[]).is_err());
    assert!(responder.recv(&[0u8; 96]).is_err());
}

#[test]
fn keypair_from_seed_layout() {
    let seed = [7u8; 32];
    let kp = keypair_from_seed(&seed);
    assert_eq!(&kp.secret_key[..32], &seed);
    assert_eq!(&kp.secret_key[32..], &kp.public_key);
    let again = keypair_from_seed(&seed);
    assert_eq!(again.public_key, kp.public_key);
}

#[test]
fn dh_rejects_invalid_point() {
    let kp = generate_keypair();
    // About half of all y-coordinates are not on the curve.
    let any_invalid = (2u8..60).any(|v| {
        let mut bad = [0u8; 32];
        bad[0] = v;
        matches!(ed25519_dh(&kp.secret_key, &bad), Err(NoiseError::InvalidPublicKey))
    });
    assert!(any_invalid);
}

#[test]
fn hmac_long_key_hashed_first() {
    let long_key = [0x5au8; 200];
    let a = hmac_blake2b(&long_key, b"data");
    let b = hmac_blake2b(&long_key, b"data");
    assert_eq!(a, b);
    assert_ne!(a, hmac_blake2b(&long_key[..128], b"data"));
}

#[test]
fn xx_message_sizes_and_order() {
    let mut initiator = Handshake::new(true, generate_keypair());
    let mut responder = Handshake::new(false, generate_keypair());
    assert!(matches!(responder.send(), Err(NoiseError::UnexpectedState)));
    assert!(matches!(initiator.recv(&[0u8; 96]), Err(NoiseError::UnexpectedState)));
    let m1 = initiator.send().unwrap();
    assert_eq!(m1.len(), 32);
    assert!(responder.recv(&m1).unwrap().is_none());
    let m2 = responder.send().unwrap();
    assert_eq!(m2.len(), 96);
    assert!(initiator.recv(&m2).unwrap().is_none());
    let m3 = initiator.send().unwrap();
    assert_eq!(m3.len(), 64);
    assert!(responder.recv(&m3).unwrap().is_some());
    assert!(matches!(initiator.send(), Err(NoiseError::HandshakeComplete)));
    assert!(matches!(responder.recv(&m3), Err(NoiseError::HandshakeComplete)));
}

#[test]
fn xx_deterministic_with_set_ephemeral() {
    let run = || {
        let mut i = Handshake::new(true, keypair_from_seed(&[1u8; 32]));
        let mut r = Handshake::new(false, keypair_from_seed(&[2u8; 32]));
        i.set_ephemeral(keypair_from_seed(&[3u8; 32]));
        r.set_ephemeral(keypair_from_seed(&[4u8; 32]));
        let m1 = i.send().unwrap();
        r.recv(&m1).unwrap();
        let m2 = r.send().unwrap();
        i.recv(&m2).unwrap();
        let m3 = i.send().unwrap();
        let rr = r.recv(&m3).unwrap().unwrap();
        (m1, m2, m3, rr.tx, rr.handshake_hash)
    };
    let a = run();
    let b = run();
    assert_eq!(a.0, b.0);
    assert_eq!(a.1, b.1);
    assert_eq!(a.2, b.2);
    assert_eq!(a.3, b.3);
    assert_eq!(a.4, b.4);
    assert_eq!(a.0, keypair_from_seed(&[3u8; 32]).public_key.to_vec());
}

#[test]
fn xx_tampered_m2_fails() {
    let mut initiator = Handshake::new(true, generate_keypair());
    let mut responder = Handshake::new(false, generate_keypair());
    let m1 = initiator.send().unwrap();
    responder.recv(&m1).unwrap();
    let mut m2 = responder.send().unwrap();
    m2[50] ^= 1;
    assert!(matches!(initiator.recv(&m2), Err(NoiseError::DecryptionFailed)));
}
