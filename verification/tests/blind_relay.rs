use peeroxide_dht::blind_relay::{
    decode_pair_from_slice, decode_unpair_from_slice, encode_pair_to_vec, encode_unpair_to_vec, pair_step,
    same_token, PairMessage, PairStep, RelayError, UnpairMessage, MSG_TYPE_PAIR, MSG_TYPE_UNPAIR, PROTOCOL_NAME,
};
use peeroxide_dht::protomux::ChannelEvent;

#[test]
fn pair_roundtrip_initiator() {
    let msg = PairMessage {
        is_initiator: true,
        token: [0xaa; 32],
        id: 42,
        seq: 7,
    };
    let encoded = encode_pair_to_vec(&msg);
    let decoded = decode_pair_from_slice(&encoded).unwrap();
    assert_eq!(decoded, msg);
}

#[test]
fn pair_roundtrip_responder() {
    let msg = PairMessage {
        is_initiator: false,
        token: [0xbb; 32],
        id: 0,
        seq: 0,
    };
    let encoded = encode_pair_to_vec(&msg);
    let decoded = decode_pair_from_slice(&encoded).unwrap();
    assert_eq!(decoded, msg);
}

#[test]
fn unpair_roundtrip() {
    let msg = UnpairMessage {
        token: [0xcc; 32],
    };
    let encoded = encode_unpair_to_vec(&msg);
    let decoded = decode_unpair_from_slice(&encoded).unwrap();
    assert_eq!(decoded, msg);
}

#[test]
fn pair_wire_format() {
    let msg = PairMessage {
        is_initiator: true,
        token: [0x42; 32],
        id: 1,
        seq: 2,
    };
    let encoded = encode_pair_to_vec(&msg);

    assert_eq!(encoded[0], 0x01); // flags: bit0=1 (initiator)
    assert_eq!(&encoded[1..33], &[0x42; 32]); // token
    assert_eq!(encoded[33], 0x01); // id=1 (varint)
    assert_eq!(encoded[34], 0x02); // seq=2 (varint)
    assert_eq!(encoded.len(), 35);
}

#[test]
fn pair_wire_format_responder() {
    let msg = PairMessage {
        is_initiator: false,
        token: [0x00; 32],
        id: 0,
        seq: 0,
    };
    let encoded = encode_pair_to_vec(&msg);

    assert_eq!(encoded[0], 0x00); // flags: bit0=0 (responder)
    assert_eq!(&encoded[1..33], &[0x00; 32]); // token
    assert_eq!(encoded[33], 0x00); // id=0
    assert_eq!(encoded[34], 0x00); // seq=0
}

#[test]
fn unpair_wire_format() {
    let msg = UnpairMessage {
        token: [0xff; 32],
    };
    let encoded = encode_unpair_to_vec(&msg);

    assert_eq!(encoded[0], 0x00); // flags: all zero
    assert_eq!(&encoded[1..33], &[0xff; 32]); // token
    assert_eq!(encoded.len(), 33);
}

#[test]
fn pair_large_ids() {
    let msg = PairMessage {
        is_initiator: true,
        token: [0xde; 32],
        id: 100_000,
        seq: 65_536,
    };
    let encoded = encode_pair_to_vec(&msg);
    let decoded = decode_pair_from_slice(&encoded).unwrap();
    assert_eq!(decoded, msg);
}

#[test]
fn protocol_name_constant() {
    assert_eq!(PROTOCOL_NAME, "blind-relay");
}


// ── Further cases ──

#[test]
fn pair_step_matching_answer_pairs() {
    let token = [0x11; 32];
    let answer = encode_pair_to_vec(&PairMessage { is_initiator: true, token, id: 77, seq: 0 });
    let step = pair_step(Some(ChannelEvent::Message { message_type: MSG_TYPE_PAIR, data: answer }), true, &token);
    match step {
        PairStep::Paired(r) => assert_eq!(r.remote_id, 77),
        other => panic!("unexpected {other:?}"),
    }
}

#[test]
fn pair_step_other_token_waits() {
    let answer = encode_pair_to_vec(&PairMessage { is_initiator: true, token: [0x22; 32], id: 77, seq: 0 });
    let step = pair_step(Some(ChannelEvent::Message { message_type: MSG_TYPE_PAIR, data: answer }), true, &[0x11; 32]);
    assert!(matches!(step, PairStep::Wait));
}

#[test]
fn pair_step_other_role_waits() {
    let token = [0x11; 32];
    let answer = encode_pair_to_vec(&PairMessage { is_initiator: false, token, id: 77, seq: 0 });
    let step = pair_step(Some(ChannelEvent::Message { message_type: MSG_TYPE_PAIR, data: answer }), true, &token);
    assert!(matches!(step, PairStep::Wait));
}

#[test]
fn pair_step_bad_answer_fails() {
    let step = pair_step(Some(ChannelEvent::Message { message_type: MSG_TYPE_PAIR, data: vec![1, 2] }), true, &[0; 32]);
    assert!(matches!(step, PairStep::Failed(RelayError::Encoding(_))));
}

#[test]
fn pair_step_close_fails_and_others_wait() {
    assert!(matches!(
        pair_step(Some(ChannelEvent::Closed { is_remote: true }), true, &[0; 32]),
        PairStep::Failed(RelayError::ChannelClosed)
    ));
    assert!(matches!(pair_step(None, true, &[0; 32]), PairStep::Failed(RelayError::ChannelClosed)));
    assert!(matches!(pair_step(Some(ChannelEvent::Opened { handshake: None }), true, &[0; 32]), PairStep::Wait));
    assert!(matches!(
        pair_step(Some(ChannelEvent::Message { message_type: MSG_TYPE_UNPAIR, data: vec![] }), true, &[0; 32]),
        PairStep::Wait
    ));
}

#[test]
fn same_token_compares_every_byte() {
    let a = [5u8; 32];
    let mut b = a;
    assert!(same_token(&a, &b));
    b[31] = 6;
    assert!(!same_token(&a, &b));
}

#[test]
fn unpair_truncated_fails() {
    assert!(decode_unpair_from_slice(&[0u8; 10]).is_err());
}
