use peeroxide_dht::secretstream::{
    Pull, Push, SecretstreamError, ABYTES, HEADERBYTES, KEYBYTES, TAG_FINAL, TAG_MESSAGE, TAG_PUSH,
    TAG_REKEY,
};

fn make_key() -> [u8; KEYBYTES] {
    [0x42u8; KEYBYTES]
}

#[test]
fn push_pull_roundtrip() {
    let key = make_key();
    let (mut push, header) = Push::new(&key);
    let mut pull = Pull::new(&key, &header);

    let ct1 = push.next(b"hello");
    let ct2 = push.next(b"world");
    let ct3 = push.next(b"");
    let ct4 = push.finalize(b"last");

    let (msg1, tag1) = pull.next(&ct1).unwrap();
    let (msg2, tag2) = pull.next(&ct2).unwrap();
    let (msg3, tag3) = pull.next(&ct3).unwrap();
    let (msg4, tag4) = pull.next(&ct4).unwrap();

    assert_eq!(msg1, b"hello");
    assert_eq!(msg2, b"world");
    assert_eq!(msg3, b"");
    assert_eq!(msg4, b"last");

    assert_eq!(tag1, TAG_MESSAGE);
    assert_eq!(tag2, TAG_MESSAGE);
    assert_eq!(tag3, TAG_MESSAGE);
    assert_eq!(tag4, TAG_FINAL);
}

#[test]
fn tampered_ciphertext_fails() {
    let key = make_key();
    let (mut push, header) = Push::new(&key);
    let mut pull = Pull::new(&key, &header);

    let mut ct = push.next(b"secret");
    let mid = ct.len() / 2;
    ct[mid] ^= 0xFF;

    let result = pull.next(&ct);
    assert!(result.is_err(), "tampered ciphertext should fail");
}

#[test]
fn empty_plaintext_size() {
    let key = make_key();
    let (mut push, _header) = Push::new(&key);
    let ct = push.next(b"");
    assert_eq!(ct.len(), ABYTES);
}

#[test]
fn tag_final_detected() {
    let key = make_key();
    let (mut push, header) = Push::new(&key);
    let mut pull = Pull::new(&key, &header);

    let ct = push.finalize(b"bye");
    let (_msg, tag) = pull.next(&ct).unwrap();
    assert_eq!(tag, TAG_FINAL);
}

#[test]
fn with_header_is_deterministic() {
    let key = make_key();
    let header = [7u8; HEADERBYTES];
    let mut a = Push::with_header(&key, &header);
    let mut b = Push::with_header(&key, &header);
    let ca = a.next(b"same");
    let cb = b.next(b"same");
    assert_eq!(ca, cb);
    assert_eq!(ca.len(), 4 + ABYTES);
    // The plaintext does not stand in the ciphertext as it is.
    assert_ne!(&ca[1..5], b"same");
}

#[test]
fn associated_data_and_rekey_roundtrip() {
    let key = make_key();
    let header = [9u8; HEADERBYTES];
    let mut push = Push::with_header(&key, &header);
    let mut pull = Pull::new(&key, &header);
    let c1 = push.push(b"one", Some(b"ad"), TAG_PUSH);
    let c2 = push.push(b"two", None, TAG_REKEY);
    let c3 = push.next(b"three");
    assert_eq!(pull.pull(&c1, Some(b"ad")).unwrap(), (b"one".to_vec(), TAG_PUSH));
    assert_eq!(pull.pull(&c2, None).unwrap(), (b"two".to_vec(), TAG_REKEY));
    assert_eq!(pull.next(&c3).unwrap(), (b"three".to_vec(), TAG_MESSAGE));
}

#[test]
fn wrong_associated_data_fails_and_keeps_state() {
    let key = make_key();
    let header = [3u8; HEADERBYTES];
    let mut push = Push::with_header(&key, &header);
    let mut pull = Pull::new(&key, &header);
    let c1 = push.push(b"msg", Some(b"right"), TAG_MESSAGE);
    assert_eq!(pull.pull(&c1, Some(b"wrong")), Err(SecretstreamError::DecryptionFailed));
    assert_eq!(pull.pull(&c1, Some(b"right")).unwrap(), (b"msg".to_vec(), TAG_MESSAGE));
}

#[test]
fn short_ciphertext_rejected() {
    let key = make_key();
    let mut pull = Pull::new(&key, &[0u8; HEADERBYTES]);
    assert_eq!(pull.next(&[0u8; 16]), Err(SecretstreamError::CiphertextTooShort));
}

#[test]
fn tampered_mac_is_decryption_failure() {
    let key = make_key();
    let header = [5u8; HEADERBYTES];
    let mut push = Push::with_header(&key, &header);
    let mut pull = Pull::new(&key, &header);
    let mut ct = push.next(b"payload");
    let last = ct.len() - 1;
    ct[last] ^= 1;
    assert_eq!(pull.next(&ct), Err(SecretstreamError::DecryptionFailed));
}

#[test]
fn out_of_order_fails() {
    let key = make_key();
    let header = [1u8; HEADERBYTES];
    let mut push = Push::with_header(&key, &header);
    let mut pull = Pull::new(&key, &header);
    let _c1 = push.next(b"first");
    let c2 = push.next(b"second");
    assert!(pull.next(&c2).is_err());
}
