use peeroxide_dht::client::{
    announce_value, collect_lookup, connect_candidates, connection_path, extend_untried, holepunch_client_step,
    mutable_put_value, peer_record_relays, select_immutable, select_mutable, unannounce_value, ConnectPath, PunchEvent, PunchOutcome, PunchStage, PunchState,
};
use peeroxide_dht::crypto::{
    ann_signable, hash, mutable_signable, ns_announce, ns_mutable_put, ns_unannounce, sign_detached, verify_detached,
};
use peeroxide_dht::hyperdht::KeyPair;
use peeroxide_dht::hyperdht_messages::{
    decode_announce_from_bytes, decode_mutable_put_request_from_bytes, encode_hyper_peer_to_bytes,
    encode_lookup_raw_reply_to_bytes, encode_mutable_get_response_to_bytes, HolepunchInfo, HyperPeer, LookupRawReply,
    MutableGetResponse,
    RelayInfo, RelayThroughInfo, ANNOUNCE, FIREWALL_CONSISTENT, FIREWALL_OPEN,
};
use peeroxide_dht::hyperdht_payloads::{HolepunchPayload, NoisePayload};
use peeroxide_dht::messages::Ipv4Peer;
use peeroxide_dht::persistent::{HandlerReply, IncomingHyperRequest, Persistent, PersistentConfig};

fn peer(host: &str, port: u16) -> Ipv4Peer {
    Ipv4Peer { host: host.to_string(), port }
}

#[test]
fn candidates_keep_order_and_drop_repeats() {
    let relays = vec![peer("1.1.1.1", 1), peer("2.2.2.2", 2)];
    let replies = vec![
        (peer("3.3.3.3", 3), vec![peer("1.1.1.1", 1), peer("4.4.4.4", 4), peer("3.3.3.3", 3)]),
        (peer("4.4.4.4", 4), vec![peer("5.5.5.5", 5), peer("4.4.4.4", 5)]),
    ];
    let got = connect_candidates(&relays, &replies);
    let want = vec![
        peer("1.1.1.1", 1),
        peer("2.2.2.2", 2),
        peer("3.3.3.3", 3),
        peer("4.4.4.4", 4),
        peer("5.5.5.5", 5),
        peer("4.4.4.4", 5),
    ];
    assert_eq!(got, want);
}

#[test]
fn untried_relays_are_added_once() {
    let mut tried = vec![peer("1.1.1.1", 1)];
    extend_untried(&mut tried, &[peer("1.1.1.1", 1), peer("9.9.9.9", 9), peer("9.9.9.9", 9)]);
    assert_eq!(tried, vec![peer("1.1.1.1", 1), peer("9.9.9.9", 9)]);
}

fn payload() -> NoisePayload {
    NoisePayload {
        version: 1,
        error: 0,
        firewall: FIREWALL_CONSISTENT,
        holepunch: Some(HolepunchInfo {
            id: 1,
            relays: vec![RelayInfo { relay_address: peer("8.8.8.8", 1), peer_address: peer("9.9.9.9", 2) }],
        }),
        addresses4: vec![peer("192.168.1.2", 10), peer("44.1.2.3", 11)],
        addresses6: vec![],
        udx: None,
        secret_stream: None,
        relay_through: None,
        relay_addresses: None,
    }
}

#[test]
fn path_rejected_on_error() {
    let mut p = payload();
    p.error = 1;
    assert!(matches!(connection_path(true, &p, &peer("5.5.5.5", 1), &peer("6.6.6.6", 2)), ConnectPath::Rejected));
}

#[test]
fn path_relay_through_third_node() {
    let mut p = payload();
    p.relay_through = Some(RelayThroughInfo { version: 1, public_key: [7u8; 32], token: [8u8; 32] });
    p.relay_addresses = Some(vec![peer("7.7.7.7", 7)]);
    match connection_path(true, &p, &peer("5.5.5.5", 1), &peer("6.6.6.6", 2)) {
        ConnectPath::RelayThrough { public_key, relay_addresses } => {
            assert_eq!(public_key, [7u8; 32]);
            assert_eq!(relay_addresses, vec![peer("7.7.7.7", 7)]);
        }
        _ => panic!("expected relay through"),
    }
}

#[test]
fn path_direct_to_first_public_address() {
    let p = payload();
    match connection_path(false, &p, &peer("5.5.5.5", 1), &peer("6.6.6.6", 2)) {
        ConnectPath::Direct(a) => assert_eq!(a, peer("44.1.2.3", 11)),
        _ => panic!("expected direct"),
    }
    let mut open = payload();
    open.firewall = FIREWALL_OPEN;
    open.addresses4 = vec![peer("10.0.0.1", 1)];
    match connection_path(true, &open, &peer("5.5.5.5", 1), &peer("6.6.6.6", 2)) {
        ConnectPath::Direct(a) => assert_eq!(a, peer("5.5.5.5", 1)),
        _ => panic!("expected direct to the server"),
    }
}

#[test]
fn path_holepunch_when_relayed_behind_nat() {
    let p = payload();
    assert!(matches!(connection_path(true, &p, &peer("5.5.5.5", 1), &peer("6.6.6.6", 2)), ConnectPath::Holepunch));
    // Same host on both sides: direct.
    assert!(matches!(connection_path(true, &p, &peer("5.5.5.5", 1), &peer("5.5.5.5", 2)), ConnectPath::Direct(_)));
}

#[test]
fn punch_rounds_send_probe_then_punch() {
    let token = [3u8; 32];
    let s = PunchState { stage: PunchStage::Start, token };
    let (s, a) = holepunch_client_step(s, PunchEvent::Begin { firewall: 2 });
    let probe = a.send.unwrap();
    assert_eq!((probe.round, probe.punching, probe.firewall, probe.token), (0, false, 2, Some(token)));
    let remote = HolepunchPayload {
        error: 0,
        firewall: 1,
        round: 0,
        connected: false,
        punching: true,
        addresses: Some(vec![peer("9.9.9.9", 9)]),
        remote_address: None,
        token: None,
        remote_token: None,
    };
    let (s, a) = holepunch_client_step(
        s,
        PunchEvent::ProbeReply { error: 0, remote: Some(remote), peer_host: "9.9.9.9".into(), firewall: 3 },
    );
    let up = a.update.unwrap();
    assert_eq!((up.punching, up.firewall, up.verified_host.as_str()), (true, 1, "9.9.9.9"));
    let punch = a.send.unwrap();
    assert_eq!((punch.round, punch.punching, punch.firewall), (1, true, 3));
    let (s, a) = holepunch_client_step(s, PunchEvent::PunchReply { remote: None, peer_host: String::new() });
    assert!(a.punch && a.update.is_none());
    let (s, _) = holepunch_client_step(s, PunchEvent::Punched(true));
    let (s, a) = holepunch_client_step(s, PunchEvent::Connected(peer("9.9.9.9", 9)));
    assert!(s.stage == PunchStage::Done);
    assert!(matches!(a.outcome, Some(PunchOutcome::Connected(ref p)) if p == &peer("9.9.9.9", 9)));
}

#[test]
fn punch_fails_on_probe_error_and_timeout() {
    let s = PunchState { stage: PunchStage::Probing, token: [0u8; 32] };
    let (s2, a) =
        holepunch_client_step(s, PunchEvent::ProbeReply { error: 1, remote: None, peer_host: String::new(), firewall: 0 });
    assert!(s2.stage == PunchStage::Failed);
    assert!(matches!(a.outcome, Some(PunchOutcome::Failed { destroy: true })));
    let s = PunchState { stage: PunchStage::Punched, token: [0u8; 32] };
    let (_, a) = holepunch_client_step(s, PunchEvent::TimedOut);
    assert!(matches!(a.outcome, Some(PunchOutcome::Failed { destroy: true })));
    let (_, a) = holepunch_client_step(s, PunchEvent::Punched(false));
    assert!(matches!(a.outcome, Some(PunchOutcome::Failed { destroy: true })));
    let s = PunchState { stage: PunchStage::Probing, token: [0u8; 32] };
    let (_, a) = holepunch_client_step(s, PunchEvent::RequestFailed);
    assert!(matches!(a.outcome, Some(PunchOutcome::Failed { destroy: false })));
    // An event out of turn changes nothing.
    let s = PunchState { stage: PunchStage::Start, token: [0u8; 32] };
    let (s2, a) = holepunch_client_step(s, PunchEvent::Aborted);
    assert!(s2.stage == PunchStage::Start && a.send.is_none() && a.outcome.is_none());
}

fn kp() -> KeyPair {
    KeyPair::from_seed([0x42u8; 32])
}

#[test]
fn announce_value_is_signed_and_keeps_three_relays() {
    let kp = kp();
    let target = [1u8; 32];
    let token = [2u8; 32];
    let node_id = [3u8; 32];
    let relays: Vec<Ipv4Peer> = (1..=5).map(|i| peer(&format!("1.2.3.{i}"), i)).collect();
    let bytes = announce_value(&target, &token, &node_id, &kp, &relays).unwrap();
    let m = decode_announce_from_bytes(&bytes).unwrap();
    let p = m.peer.unwrap();
    assert_eq!(p.public_key, kp.public_key);
    assert_eq!(p.relay_addresses, relays[..3].to_vec());
    let enc = encode_hyper_peer_to_bytes(&p).unwrap();
    let signable = ann_signable(&target, &token, &node_id, &enc, &[], &ns_announce());
    assert!(verify_detached(&m.signature.unwrap(), &signable, &kp.public_key));
    assert!(announce_value(&target, &token, &node_id, &kp, &[peer("nope", 1)]).is_err());
}

#[test]
fn announce_value_is_accepted_by_the_store() {
    let kp = kp();
    let target = [9u8; 32];
    let token = [4u8; 32];
    let node_id = [5u8; 32];
    let mut store = Persistent::new(PersistentConfig::default());
    let req = IncomingHyperRequest {
        command: ANNOUNCE,
        target: Some(target),
        token: Some(token),
        value: Some(announce_value(&target, &token, &node_id, &kp, &[]).unwrap()),
        from: peer("1.1.1.1", 1),
        id: Some(node_id),
    };
    assert!(matches!(store.on_announce(&req, &node_id), HandlerReply::ValueNoToken(None)));
}

#[test]
fn unannounce_value_is_signed_in_its_namespace() {
    let kp = kp();
    let bytes = unannounce_value(&[1u8; 32], &[2u8; 32], &[3u8; 32], &kp);
    let m = decode_announce_from_bytes(&bytes).unwrap();
    let p = m.peer.unwrap();
    assert!(p.relay_addresses.is_empty());
    let enc = encode_hyper_peer_to_bytes(&p).unwrap();
    let signable = ann_signable(&[1u8; 32], &[2u8; 32], &[3u8; 32], &enc, &[], &ns_unannounce());
    assert!(verify_detached(&m.signature.unwrap(), &signable, &kp.public_key));
}

#[test]
fn mutable_put_value_signs_seq_and_value() {
    let kp = kp();
    let (bytes, sig) = mutable_put_value(&kp, b"hello", 7);
    let put = decode_mutable_put_request_from_bytes(&bytes).unwrap();
    assert_eq!((put.seq, put.value.as_slice(), put.public_key), (7, &b"hello"[..], kp.public_key));
    assert_eq!(put.signature, sig);
    assert!(verify_detached(&sig, &mutable_signable(&ns_mutable_put(), 7, b"hello"), &kp.public_key));
}

fn signed_response(kp: &KeyPair, seq: u64, value: &[u8]) -> Vec<u8> {
    let sig = sign_detached(&mutable_signable(&ns_mutable_put(), seq, value), &kp.secret_key);
    encode_mutable_get_response_to_bytes(&MutableGetResponse { seq, value: value.to_vec(), signature: sig }).unwrap()
}

#[test]
fn select_mutable_takes_first_signed_recent_enough() {
    let kp = kp();
    let other = KeyPair::from_seed([7u8; 32]);
    let values = vec![
        None,
        Some(vec![0xff]),
        Some(signed_response(&kp, 1, b"old")),
        Some(signed_response(&other, 9, b"forged")),
        Some(signed_response(&kp, 5, b"new")),
        Some(signed_response(&kp, 6, b"newer")),
    ];
    let (i, m) = select_mutable(&kp.public_key, 3, &values).unwrap();
    assert_eq!((i, m.seq, m.value.as_slice()), (4, 5, &b"new"[..]));
    assert!(select_mutable(&kp.public_key, 7, &values).is_none());
}

#[test]
fn select_immutable_checks_the_hash() {
    let data = b"hello world".to_vec();
    let target = hash(&data);
    let values = vec![None, Some(b"other".to_vec()), Some(data.clone()), Some(data)];
    assert_eq!(select_immutable(&target, &values), Some(2));
    assert_eq!(select_immutable(&[0u8; 32], &values), None);
}

#[test]
fn lookup_keeps_replies_with_peers() {
    let p = HyperPeer { public_key: [1u8; 32], relay_addresses: vec![] };
    let with = encode_lookup_raw_reply_to_bytes(&LookupRawReply { peers: vec![p], bump: 0 }).unwrap();
    let without = encode_lookup_raw_reply_to_bytes(&LookupRawReply { peers: vec![], bump: 0 }).unwrap();
    let got = collect_lookup(&[Some(without), None, Some(vec![0xff, 0xff]), Some(with)]);
    assert_eq!(got.len(), 1);
    assert_eq!(got[0].0, 3);
    assert_eq!(got[0].1[0].public_key, [1u8; 32]);
}

#[test]
fn peer_records_give_their_relays() {
    let rec = |hosts: Vec<Ipv4Peer>| {
        encode_hyper_peer_to_bytes(&HyperPeer { public_key: [2u8; 32], relay_addresses: hosts }).unwrap()
    };
    let values = vec![Some(rec(vec![peer("1.1.1.1", 1)])), Some(vec![1]), Some(rec(vec![peer("2.2.2.2", 2), peer("1.1.1.1", 1)]))];
    let relays = peer_record_relays(&values);
    assert_eq!(relays, vec![peer("1.1.1.1", 1), peer("2.2.2.2", 2), peer("1.1.1.1", 1)]);
    let mut tried = vec![peer("1.1.1.1", 1)];
    extend_untried(&mut tried, &relays);
    assert_eq!(tried, vec![peer("1.1.1.1", 1), peer("2.2.2.2", 2)]);
}
