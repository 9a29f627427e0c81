use peeroxide_dht::mux::{MuxAction, MuxState};
use peeroxide_dht::protomux::{
    encode_batch, encode_close, encode_message, encode_open, encode_reject, ChannelEvent, ProtomuxError,
};

fn writes(acts: &[MuxAction]) -> Vec<Vec<u8>> {
    acts.iter()
        .filter_map(|a| match a {
            MuxAction::Write(b) => Some(b.clone()),
            _ => None,
        })
        .collect()
}

#[test]
fn create_writes_open_frame_and_waits() {
    let mut m = MuxState::new();
    let (id, acts) = m.create_channel("proto", Some(vec![1, 2]), Some(vec![9]));
    assert_eq!(id, 1);
    assert_eq!(acts.len(), 1);
    assert_eq!(writes(&acts), vec![encode_open(1, "proto", Some(&[1, 2]), Some(&[9]))]);
}

#[test]
fn local_then_remote_open_pairs_channel() {
    let mut m = MuxState::new();
    let (id, _) = m.create_channel("proto", None, None);
    let frame = encode_open(7, "proto", None, Some(&[5, 6]));
    let (acts, r) = m.on_frame(&frame);
    assert!(r.is_ok());
    assert_eq!(acts.len(), 1);
    match &acts[0] {
        MuxAction::Deliver { local_id, event: ChannelEvent::Opened { handshake } } => {
            assert_eq!(*local_id, id);
            assert_eq!(handshake.as_deref(), Some(&[5u8, 6][..]));
        }
        other => panic!("unexpected {other:?}"),
    }
    // A message on remote channel 7 now reaches local channel 1.
    let (acts, r) = m.on_frame(&encode_message(7, 3, b"hi"));
    assert!(r.is_ok());
    match &acts[0] {
        MuxAction::Deliver { local_id: 1, event: ChannelEvent::Message { message_type: 3, data } } => {
            assert_eq!(data, b"hi")
        }
        other => panic!("unexpected {other:?}"),
    }
}

#[test]
fn remote_then_local_open_delivers_buffered_messages() {
    let mut m = MuxState::new();
    let (acts, r) = m.on_frame(&encode_open(4, "p", Some(&[0xab]), Some(&[1])));
    assert!(r.is_ok());
    assert!(acts.is_empty());
    let (acts, r) = m.on_frame(&encode_message(4, 2, b"early"));
    assert!(r.is_ok());
    assert!(acts.is_empty());
    let (id, acts) = m.create_channel("p", Some(vec![0xab]), None);
    assert_eq!(id, 1);
    assert_eq!(acts.len(), 3);
    assert!(matches!(acts[0], MuxAction::Write(_)));
    assert!(matches!(&acts[1], MuxAction::Deliver { local_id: 1, event: ChannelEvent::Opened { handshake: Some(h) } } if h == &vec![1u8]));
    assert!(matches!(&acts[2], MuxAction::Deliver { local_id: 1, event: ChannelEvent::Message { message_type: 2, data } } if data == b"early"));
}

#[test]
fn different_ids_do_not_pair() {
    let mut m = MuxState::new();
    m.create_channel("p", Some(vec![1]), None);
    let (acts, _) = m.on_frame(&encode_open(3, "p", Some(&[2]), None));
    assert!(acts.is_empty());
}

#[test]
fn remote_open_with_id_zero_is_rejected() {
    let mut m = MuxState::new();
    let (acts, r) = m.on_frame(&encode_open(0, "p", None, None));
    assert!(r.is_ok());
    assert_eq!(writes(&acts), vec![encode_reject(0)]);
}

#[test]
fn duplicate_remote_open_is_an_error() {
    let mut m = MuxState::new();
    let (_, r) = m.on_frame(&encode_open(2, "p", None, None));
    assert!(r.is_ok());
    let (_, r) = m.on_frame(&encode_open(2, "q", None, None));
    assert!(matches!(r, Err(ProtomuxError::InvalidFrame(ref s)) if s == "duplicate remote channel ID"));
}

#[test]
fn close_frees_id_for_next_channel() {
    let mut m = MuxState::new();
    let (a, _) = m.create_channel("p", None, None);
    let (b, _) = m.create_channel("q", None, None);
    assert_eq!((a, b), (1, 2));
    let acts = m.close_channel(1);
    assert_eq!(acts.len(), 3);
    assert!(matches!(acts[0], MuxAction::Deliver { local_id: 1, event: ChannelEvent::Closed { is_remote: false } }));
    assert_eq!(writes(&acts), vec![encode_close(1)]);
    assert!(matches!(acts[2], MuxAction::Release { local_id: 1 }));
    // The next channel takes the freed id.
    let (c, _) = m.create_channel("r", None, None);
    assert_eq!(c, 1);
}

#[test]
fn send_on_unknown_channel_does_nothing() {
    let mut m = MuxState::new();
    assert!(m.send_message(5, 0, b"x").is_empty());
}

#[test]
fn send_writes_data_frame() {
    let mut m = MuxState::new();
    m.create_channel("p", None, None);
    let acts = m.send_message(1, 4, b"abc");
    assert_eq!(writes(&acts), vec![encode_message(1, 4, b"abc")]);
}

#[test]
fn corked_messages_leave_as_one_batch() {
    let mut m = MuxState::new();
    m.create_channel("p", None, None);
    m.cork();
    m.cork();
    assert_eq!(m.cork_depth(), 2);
    assert!(m.send_message(1, 1, b"a").is_empty());
    assert!(m.send_message(1, 2, b"bc").is_empty());
    assert!(m.uncork().is_empty());
    let acts = m.uncork();
    let expected = encode_batch(&[(1, vec![1, b'a']), (1, vec![2, b'b', b'c'])]);
    assert_eq!(writes(&acts), vec![expected]);
    assert_eq!(m.cork_depth(), 0);
    assert!(m.uncork().is_empty());
}

#[test]
fn batch_frame_dispatches_each_message() {
    let mut m = MuxState::new();
    m.create_channel("p", None, None);
    m.on_frame(&encode_open(9, "p", None, None));
    let frame = encode_batch(&[(9, vec![1, b'x']), (9, vec![2, b'y'])]);
    let (acts, r) = m.on_frame(&frame);
    assert!(r.is_ok());
    assert_eq!(acts.len(), 2);
    assert!(matches!(&acts[0], MuxAction::Deliver { local_id: 1, event: ChannelEvent::Message { message_type: 1, data } } if data == b"x"));
    assert!(matches!(&acts[1], MuxAction::Deliver { local_id: 1, event: ChannelEvent::Message { message_type: 2, data } } if data == b"y"));
}

#[test]
fn remote_close_tells_partner() {
    let mut m = MuxState::new();
    m.create_channel("p", None, None);
    m.on_frame(&encode_open(3, "p", None, None));
    let (acts, r) = m.on_frame(&encode_close(3));
    assert!(r.is_ok());
    assert_eq!(acts.len(), 1);
    assert!(matches!(acts[0], MuxAction::Deliver { local_id: 1, event: ChannelEvent::Closed { is_remote: true } }));
    // Shutdown tells nobody again: the channel is closed already.
    assert!(m.shutdown_all().is_empty());
}

#[test]
fn reject_frees_channel() {
    let mut m = MuxState::new();
    m.create_channel("p", None, None);
    assert!(m.frame_aborts(&encode_reject(2)));
    assert!(!m.frame_aborts(&encode_reject(1)));
    let (acts, r) = m.on_frame(&encode_reject(1));
    assert!(r.is_ok());
    assert_eq!(acts.len(), 2);
    assert!(matches!(acts[0], MuxAction::Deliver { local_id: 1, event: ChannelEvent::Closed { is_remote: true } }));
    assert!(matches!(acts[1], MuxAction::Release { local_id: 1 }));
}

#[test]
fn empty_frame_is_ignored_and_garbage_is_an_error() {
    let mut m = MuxState::new();
    let (acts, r) = m.on_frame(&[]);
    assert!(acts.is_empty() && r.is_ok());
    let (_, r) = m.handle_incoming_frame(&[]);
    assert!(r.is_err());
    let (_, r) = m.on_frame(&[0, 9]);
    assert!(r.is_err());
}

#[test]
fn shutdown_closes_open_channels() {
    let mut m = MuxState::new();
    m.create_channel("p", None, None);
    m.create_channel("q", None, None);
    let acts = m.shutdown_all();
    assert_eq!(acts.len(), 2);
    assert!(matches!(acts[0], MuxAction::Deliver { local_id: 1, event: ChannelEvent::Closed { is_remote: true } }));
    assert!(matches!(acts[1], MuxAction::Deliver { local_id: 2, event: ChannelEvent::Closed { is_remote: true } }));
}
