use peeroxide_dht::hyperdht_messages::{
    ANNOUNCE, FIND_PEER, IMMUTABLE_GET, IMMUTABLE_PUT, LOOKUP, PEER_HANDSHAKE, PEER_HOLEPUNCH, UNANNOUNCE,
};
use peeroxide_dht::messages::Ipv4Peer;
use peeroxide_dht::persistent::{HandlerReply, IncomingHyperRequest, Persistent, PersistentConfig};
use peeroxide_dht::requests::{
    dispatch_request, forwarded_reply, reply_action, route_handshake_reply, route_holepunch_reply, route_request,
    HandshakeRouting, HolepunchRouting, PeerReply, RequestAction, Route,
};

fn from() -> Ipv4Peer {
    Ipv4Peer { host: "1.2.3.4".to_string(), port: 5 }
}

fn req(command: u64, target: Option<[u8; 32]>, value: Option<Vec<u8>>, id: Option<[u8; 32]>) -> IncomingHyperRequest {
    IncomingHyperRequest { command, target, token: Some([1u8; 32]), value, from: from(), id }
}

#[test]
fn routes_by_command() {
    assert!(route_request(PEER_HANDSHAKE, false) == Route::Handshake);
    assert!(route_request(PEER_HOLEPUNCH, false) == Route::Holepunch);
    assert!(route_request(ANNOUNCE, false) == Route::Silent);
    assert!(route_request(ANNOUNCE, true) == Route::Announce);
    assert!(route_request(UNANNOUNCE, false) == Route::Silent);
    assert!(route_request(99, true) == Route::Unknown);
}

#[test]
fn store_answers_map_to_actions() {
    assert!(matches!(reply_action(HandlerReply::Value(Some(vec![1]))), RequestAction::Reply(Some(ref v)) if v == &vec![1u8]));
    assert!(matches!(reply_action(HandlerReply::ValueNoToken(None)), RequestAction::Reply(None)));
    assert!(matches!(reply_action(HandlerReply::Error(16)), RequestAction::Error(16)));
    assert!(matches!(reply_action(HandlerReply::Silent), RequestAction::Drop));
}

#[test]
fn dispatch_runs_the_store() {
    let mut store = Persistent::new(PersistentConfig::default());
    let data = b"hello world".to_vec();
    let target = peeroxide_dht::crypto::hash(&data);
    let put = dispatch_request(&mut store, &req(IMMUTABLE_PUT, Some(target), Some(data.clone()), None));
    assert!(matches!(put, RequestAction::Reply(None)));
    let got = dispatch_request(&mut store, &req(IMMUTABLE_GET, Some(target), None, None));
    assert!(matches!(got, RequestAction::Reply(Some(ref v)) if v == &data));
    assert!(matches!(dispatch_request(&mut store, &req(LOOKUP, Some([0u8; 32]), None, None)), RequestAction::Reply(None)));
    assert!(matches!(dispatch_request(&mut store, &req(FIND_PEER, None, None, None)), RequestAction::Drop));
    assert!(matches!(dispatch_request(&mut store, &req(ANNOUNCE, Some([0u8; 32]), Some(vec![0]), None)), RequestAction::Drop));
    assert!(matches!(dispatch_request(&mut store, &req(42, None, None, None)), RequestAction::Drop));
    assert!(matches!(dispatch_request(&mut store, &req(PEER_HANDSHAKE, None, None, None)), RequestAction::Handshake));
}

#[test]
fn handshake_replies() {
    assert!(matches!(route_handshake_reply(false, None, true), PeerReply::Error(1)));
    assert!(matches!(route_handshake_reply(true, None, true), PeerReply::Error(1)));
    let r = route_handshake_reply(true, Some(HandshakeRouting::Relay { value: vec![1], to: from() }), true);
    assert!(matches!(r, PeerReply::RelayThenReply { ref value, ref to } if value == &vec![1u8] && to == &from()));
    assert!(matches!(route_handshake_reply(true, Some(HandshakeRouting::Reply(vec![2])), true), PeerReply::Reply(Some(_))));
    assert!(matches!(route_handshake_reply(true, Some(HandshakeRouting::HandleLocally), true), PeerReply::Forward));
    assert!(matches!(route_handshake_reply(true, Some(HandshakeRouting::HandleLocally), false), PeerReply::Reply(None)));
    assert!(matches!(route_handshake_reply(true, Some(HandshakeRouting::CloserNodes), true), PeerReply::Reply(None)));
    assert!(matches!(route_handshake_reply(true, Some(HandshakeRouting::Drop), true), PeerReply::Drop));
}

#[test]
fn holepunch_replies() {
    assert!(matches!(route_holepunch_reply(false, Some(HolepunchRouting::Drop), true), PeerReply::Error(1)));
    let r = route_holepunch_reply(true, Some(HolepunchRouting::Reply { value: vec![3], to: from() }), true);
    assert!(matches!(r, PeerReply::RelayThenReply { .. }));
    assert!(matches!(route_holepunch_reply(true, Some(HolepunchRouting::HandleLocally), true), PeerReply::Forward));
    assert!(matches!(forwarded_reply(Some(Some(vec![4]))), PeerReply::Reply(Some(_))));
    assert!(matches!(forwarded_reply(None), PeerReply::Error(1)));
}
