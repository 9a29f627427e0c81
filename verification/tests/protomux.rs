use peeroxide_dht::protomux::{
    decode_frame, encode_batch, encode_close, encode_message, encode_open, encode_reject, ControlFrame,
    DecodedFrame, ProtomuxError,
};

#[test]
fn open_frame_roundtrip() {
    let frame = encode_open(1, "blind-relay", None, None);
    let decoded = decode_frame(&frame).unwrap();
    assert_eq!(
        decoded,
        DecodedFrame::Control(ControlFrame::Open {
            local_id: 1,
            protocol: "blind-relay".into(),
            id: None,
            handshake_state: None,
        })
    );
}

#[test]
fn open_frame_with_id_and_handshake() {
    let id = vec![0xAA, 0xBB, 0xCC];
    let hs = vec![1, 2, 3, 4, 5];
    let frame = encode_open(5, "test-proto", Some(&id), Some(&hs));
    let decoded = decode_frame(&frame).unwrap();
    assert_eq!(
        decoded,
        DecodedFrame::Control(ControlFrame::Open {
            local_id: 5,
            protocol: "test-proto".into(),
            id: Some(id),
            handshake_state: Some(hs),
        })
    );
}

#[test]
fn close_frame_roundtrip() {
    let frame = encode_close(3);
    let decoded = decode_frame(&frame).unwrap();
    assert_eq!(
        decoded,
        DecodedFrame::Control(ControlFrame::Close { local_id: 3 })
    );
}

#[test]
fn reject_frame_roundtrip() {
    let frame = encode_reject(7);
    let decoded = decode_frame(&frame).unwrap();
    assert_eq!(
        decoded,
        DecodedFrame::Control(ControlFrame::Reject { remote_id: 7 })
    );
}

#[test]
fn message_frame_roundtrip() {
    let payload = vec![10, 20, 30];
    let frame = encode_message(2, 0, &payload);
    let decoded = decode_frame(&frame).unwrap();
    assert_eq!(
        decoded,
        DecodedFrame::Message {
            channel_id: 2,
            message_type: 0,
            payload,
        }
    );
}

#[test]
fn batch_frame_roundtrip() {
    let entries = vec![
        (1u64, vec![0, 10, 20]), // channel 1, inner data
        (1, vec![0, 30, 40]),    // channel 1 again
        (2, vec![1, 50]),        // channel 2
    ];
    let frame = encode_batch(&entries);
    let decoded = decode_frame(&frame).unwrap();
    match decoded {
        DecodedFrame::Batch(items) => {
            assert_eq!(items.len(), 3);
            assert_eq!(items[0].channel_id, 1);
            assert_eq!(items[0].data, vec![0, 10, 20]);
            assert_eq!(items[1].channel_id, 1);
            assert_eq!(items[1].data, vec![0, 30, 40]);
            assert_eq!(items[2].channel_id, 2);
            assert_eq!(items[2].data, vec![1, 50]);
        }
        other => panic!("expected Batch, got {other:?}"),
    }
}

#[test]
fn empty_batch() {
    let frame = encode_batch(&[]);
    assert!(frame.is_empty());
}


// ── Further cases ──

#[test]
fn close_frame_exact_bytes() {
    assert_eq!(encode_close(3), vec![0, 3, 3]);
    assert_eq!(encode_reject(300), vec![0, 2, 0xfd, 0x2c, 0x01]);
}

#[test]
fn empty_frame_is_invalid() {
    match decode_frame(&[]) {
        Err(ProtomuxError::InvalidFrame(m)) => assert_eq!(m, "empty frame"),
        other => panic!("unexpected {other:?}"),
    }
}

#[test]
fn unknown_control_type_is_invalid() {
    match decode_frame(&[0, 9]) {
        Err(ProtomuxError::InvalidFrame(m)) => assert_eq!(m, "unknown control type: 9"),
        other => panic!("unexpected {other:?}"),
    }
}

#[test]
fn truncated_frame_is_an_encoding_error() {
    assert!(matches!(decode_frame(&[0xfd, 1]), Err(ProtomuxError::Encoding(_))));
    assert!(matches!(decode_frame(&[0, 3]), Err(ProtomuxError::Encoding(_))));
}

#[test]
fn batch_item_overflowing_frame_is_invalid() {
    match decode_frame(&[0, 0, 1, 5, 1, 2]) {
        Err(ProtomuxError::InvalidFrame(m)) => assert_eq!(m, "batch item overflows frame"),
        other => panic!("unexpected {other:?}"),
    }
}

#[test]
fn batch_frame_exact_bytes() {
    let frame = encode_batch(&[(1, vec![7]), (2, vec![8, 9])]);
    assert_eq!(frame, vec![0, 0, 1, 1, 7, 0, 2, 2, 8, 9]);
}

#[test]
fn message_with_empty_payload_roundtrip() {
    let frame = encode_message(5, 1, &[]);
    assert_eq!(
        decode_frame(&frame).unwrap(),
        DecodedFrame::Message { channel_id: 5, message_type: 1, payload: vec![] }
    );
}

#[test]
fn open_with_empty_id_reads_back_absent() {
    let frame = encode_open(2, "p", Some(&[]), Some(&[]));
    assert_eq!(
        decode_frame(&frame).unwrap(),
        DecodedFrame::Control(ControlFrame::Open { local_id: 2, protocol: "p".into(), id: None, handshake_state: None })
    );
}
