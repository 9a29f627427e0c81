use peeroxide_dht::hyperdht_payloads::HolepunchPayload;
use peeroxide_dht::messages::Ipv4Peer;
use peeroxide_dht::secure_payload::{SecurePayload, SecurePayloadError, NONCE_SIZE, TAG_SIZE};

fn make_payload() -> HolepunchPayload {
    HolepunchPayload {
        error: 0,
        firewall: 1,
        round: 3,
        connected: false,
        punching: true,
        addresses: Some(vec![Ipv4Peer {
            host: "1.2.3.4".into(),
            port: 1000,
        }]),
        remote_address: None,
        token: None,
        remote_token: None,
    }
}

#[test]
fn encrypt_decrypt_roundtrip() {
    let secret = [0xaa; 32];
    let sp = SecurePayload::new(secret);
    let payload = make_payload();

    let encrypted = sp.encrypt(&payload).unwrap();
    assert!(encrypted.len() > NONCE_SIZE + TAG_SIZE);

    let decrypted = sp.decrypt(&encrypted).unwrap();
    assert_eq!(decrypted, payload);
}

#[test]
fn decrypt_wrong_key_fails() {
    let sp1 = SecurePayload::new([0xaa; 32]);
    let sp2 = SecurePayload::new([0xbb; 32]);

    let encrypted = sp1.encrypt(&make_payload()).unwrap();
    assert!(sp2.decrypt(&encrypted).is_err());
}

#[test]
fn decrypt_truncated_fails() {
    let sp = SecurePayload::new([0xaa; 32]);
    assert!(sp.decrypt(&[0u8; 40]).is_err());
}

#[test]
fn decrypt_corrupted_ciphertext_fails() {
    let sp = SecurePayload::new([0xaa; 32]);
    let mut encrypted = sp.encrypt(&make_payload()).unwrap();
    let last = encrypted.len() - 1;
    encrypted[last] ^= 0xff;
    assert!(sp.decrypt(&encrypted).is_err());
}

#[test]
fn decrypt_corrupted_tag_fails() {
    let sp = SecurePayload::new([0xaa; 32]);
    let mut encrypted = sp.encrypt(&make_payload()).unwrap();
    encrypted[NONCE_SIZE] ^= 0xff;
    assert!(sp.decrypt(&encrypted).is_err());
}

#[test]
fn deterministic_encrypt_with_fixed_nonce() {
    let secret = [0x42; 32];
    let sp = SecurePayload::new(secret);
    let payload = make_payload();
    let nonce = [0x01; NONCE_SIZE];

    let enc1 = sp.encrypt_with_nonce(&payload, nonce).unwrap();
    let enc2 = sp.encrypt_with_nonce(&payload, nonce).unwrap();
    assert_eq!(enc1, enc2);

    let decrypted = sp.decrypt(&enc1).unwrap();
    assert_eq!(decrypted, payload);
}

#[test]
fn token_deterministic() {
    let sp = SecurePayload::with_local_secret([0xaa; 32], [0xbb; 32]);
    let t1 = sp.token("1.2.3.4");
    let t2 = sp.token("1.2.3.4");
    assert_eq!(t1, t2);
}

#[test]
fn token_different_hosts() {
    let sp = SecurePayload::with_local_secret([0xaa; 32], [0xbb; 32]);
    let t1 = sp.token("1.2.3.4");
    let t2 = sp.token("5.6.7.8");
    assert_ne!(t1, t2);
}

#[test]
fn token_different_secrets() {
    let sp1 = SecurePayload::with_local_secret([0xaa; 32], [0xbb; 32]);
    let sp2 = SecurePayload::with_local_secret([0xaa; 32], [0xcc; 32]);
    assert_ne!(sp1.token("1.2.3.4"), sp2.token("1.2.3.4"));
}

#[test]
fn encrypt_minimal_payload() {
    let sp = SecurePayload::new([0xaa; 32]);
    let payload = HolepunchPayload {
        error: 0,
        firewall: 0,
        round: 0,
        connected: false,
        punching: false,
        addresses: None,
        remote_address: None,
        token: None,
        remote_token: None,
    };
    let encrypted = sp.encrypt(&payload).unwrap();
    let decrypted = sp.decrypt(&encrypted).unwrap();
    assert_eq!(decrypted, payload);
}

#[test]
fn encrypt_all_fields_payload() {
    let sp = SecurePayload::new([0xaa; 32]);
    let payload = HolepunchPayload {
        error: 1,
        firewall: 2,
        round: 10,
        connected: true,
        punching: true,
        addresses: Some(vec![
            Ipv4Peer {
                host: "192.168.1.1".into(),
                port: 3000,
            },
            Ipv4Peer {
                host: "10.0.0.1".into(),
                port: 8080,
            },
        ]),
        remote_address: Some(Ipv4Peer {
            host: "5.6.7.8".into(),
            port: 4000,
        }),
        token: Some([0xcc; 32]),
        remote_token: Some([0xdd; 32]),
    };
    let encrypted = sp.encrypt(&payload).unwrap();
    let decrypted = sp.decrypt(&encrypted).unwrap();
    assert_eq!(decrypted, payload);
}

#[test]
fn decrypt_too_short_is_buffer_error() {
    let sp = SecurePayload::with_local_secret([0xaa; 32], [0xbb; 32]);
    assert!(matches!(sp.decrypt(&[0u8; NONCE_SIZE + TAG_SIZE]), Err(SecurePayloadError::BufferTooShort)));
    assert!(matches!(sp.decrypt(&[0u8; NONCE_SIZE + TAG_SIZE + 1]), Err(SecurePayloadError::DecryptFailed)));
}

#[test]
fn sealed_layout_starts_with_nonce() {
    let sp = SecurePayload::with_local_secret([0x42; 32], [0; 32]);
    let nonce = [0x09; NONCE_SIZE];
    let enc = sp.encrypt_with_nonce(&make_payload(), nonce).unwrap();
    assert_eq!(&enc[..NONCE_SIZE], &nonce);
    let plain = peeroxide_dht::hyperdht_payloads::encode_holepunch_payload_to_bytes(&make_payload()).unwrap();
    assert_eq!(enc.len(), NONCE_SIZE + TAG_SIZE + plain.len());
}

#[test]
fn encrypt_invalid_host_is_encoding_error() {
    let sp = SecurePayload::with_local_secret([0x42; 32], [0; 32]);
    let mut p = make_payload();
    p.addresses = Some(vec![Ipv4Peer { host: "not-an-ip".into(), port: 1 }]);
    assert!(matches!(sp.encrypt(&p), Err(SecurePayloadError::Encoding(_))));
}
