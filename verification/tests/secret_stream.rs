use peeroxide_dht::noise::{generate_keypair, Handshake};
use peeroxide_dht::secret_stream::{
    check_id_message, decode_frame_len, encode_frame, id_message, ns_secret_stream, stream_id,
    SecretStream, SecretStreamError, IDHEADERBYTES, MAX_MESSAGE_LEN,
};
use peeroxide_dht::secretstream::{Push, ABYTES};

#[test]
fn namespace_constants_are_distinct() {
    let ns = [ns_secret_stream(0), ns_secret_stream(1), ns_secret_stream(2)];
    assert_ne!(ns[0], ns[1]);
    assert_ne!(ns[1], ns[2]);
    assert_ne!(ns[0], ns[2]);
}

#[test]
fn stream_id_differs_by_role() {
    let hash = [0xABu8; 64];
    let id_i = stream_id(&hash, true);
    let id_r = stream_id(&hash, false);
    assert_ne!(id_i, id_r);
}

#[test]
fn frame_roundtrip() {
    let data = b"hello framing";
    let buf = encode_frame(data).unwrap();

    assert_eq!(buf.len(), 3 + data.len());
    assert_eq!(buf[0], data.len() as u8);
    assert_eq!(buf[1], 0);
    assert_eq!(buf[2], 0);

    let len = decode_frame_len(&[buf[0], buf[1], buf[2]]);
    assert_eq!(&buf[3..3 + len], data.as_slice());
}

#[test]
fn frame_header_is_little_endian() {
    let data = vec![0u8; 0x01_0203];
    let buf = encode_frame(&data).unwrap();
    assert_eq!(&buf[..3], &[0x03, 0x02, 0x01]);
    assert_eq!(decode_frame_len(&[0x03, 0x02, 0x01]), 0x01_0203);
    assert_eq!(decode_frame_len(&[0xff, 0xff, 0xff]), MAX_MESSAGE_LEN);
}

#[test]
fn frame_too_large_rejected() {
    let data = vec![0u8; MAX_MESSAGE_LEN + 1];
    match encode_frame(&data) {
        Err(SecretStreamError::MessageTooLarge { len }) => assert_eq!(len, MAX_MESSAGE_LEN + 1),
        _ => panic!("expected MessageTooLarge"),
    }
}

#[test]
fn id_header_checks() {
    let hash = [7u8; 64];
    let id = stream_id(&hash, true);
    let header = [9u8; 24];
    let msg = id_message(&id, &header);
    assert_eq!(msg.len(), IDHEADERBYTES);
    assert_eq!(check_id_message(&msg, &id).unwrap(), header);
    let other = stream_id(&hash, false);
    assert!(matches!(check_id_message(&msg, &other), Err(SecretStreamError::StreamIdMismatch)));
    match check_id_message(&msg[..55], &id) {
        Err(SecretStreamError::InvalidIdHeader { expected, got }) => {
            assert_eq!(expected, 56);
            assert_eq!(got, 55);
        }
        _ => panic!("expected InvalidIdHeader"),
    }
}

#[test]
fn established_streams_exchange_messages() {
    // Complete an XX handshake in memory.
    let mut a = Handshake::new(true, generate_keypair());
    let mut b = Handshake::new(false, generate_keypair());
    let m1 = a.send().unwrap();
    b.recv(&m1).unwrap();
    let m2 = b.send().unwrap();
    a.recv(&m2).unwrap();
    let m3 = a.send().unwrap();
    let rb = b.recv(&m3).unwrap().unwrap();
    let ra = a.result().unwrap().clone();

    // Exchange ID headers.
    let (push_a, header_a) = Push::new(&ra.tx);
    let (push_b, header_b) = Push::new(&rb.tx);
    let id_a = id_message(&stream_id(&ra.handshake_hash, true), &header_a);
    let id_b = id_message(&stream_id(&rb.handshake_hash, false), &header_b);
    let mut sa = SecretStream::establish(true, (), push_a, ra.rx, ra.handshake_hash, ra.remote_public_key, &id_b).unwrap();
    let mut sb = SecretStream::establish(false, (), push_b, rb.rx, rb.handshake_hash, rb.remote_public_key, &id_a).unwrap();
    assert!(sa.is_initiator());
    assert!(!sb.is_initiator());
    assert_eq!(sa.handshake_hash(), sb.handshake_hash());

    // A frame body decrypts on the other side; an empty one is a keepalive.
    let frame = sa.seal_message(b"ping").unwrap();
    assert_eq!(frame.len(), 3 + 4 + ABYTES);
    assert_eq!(sb.open_message(&frame[3..]).unwrap(), Some(b"ping".to_vec()));
    let keepalive = sa.seal_message(b"").unwrap();
    assert_eq!(sb.open_message(&keepalive[3..]).unwrap(), None);
    assert!(matches!(sb.open_message(&[0u8; 5]), Err(SecretStreamError::Decrypt(_))));
    sb.into_inner();
}

#[test]
fn establish_rejects_wrong_id() {
    let (push, header) = Push::new(&[1u8; 32]);
    let wrong = id_message(&[0u8; 32], &header);
    let r = SecretStream::establish(true, (), push, [2u8; 32], [3u8; 64], [4u8; 32], &wrong);
    assert!(matches!(r, Err(SecretStreamError::StreamIdMismatch)));
}
