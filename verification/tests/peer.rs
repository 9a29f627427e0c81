use peeroxide_dht::peer::{peer_id, PeerAddr};

#[test]
fn peer_id_deterministic() {
    let a = peer_id("127.0.0.1", 49737);
    let b = peer_id("127.0.0.1", 49737);
    assert_eq!(a, b);
}

#[test]
fn peer_id_differs_by_port() {
    let a = peer_id("127.0.0.1", 49737);
    let b = peer_id("127.0.0.1", 49738);
    assert_ne!(a, b);
}

#[test]
fn peer_id_differs_by_host() {
    let a = peer_id("10.0.0.1", 8080);
    let b = peer_id("10.0.0.2", 8080);
    assert_ne!(a, b);
}

#[test]
fn peer_addr_id() {
    let addr = PeerAddr::new("192.168.1.1", 3000);
    let expected = peer_id("192.168.1.1", 3000);
    assert_eq!(addr.id(), expected);
}

#[test]
fn peer_id_is_32_bytes() {
    let id = peer_id("0.0.0.0", 0);
    assert_eq!(id.len(), 32);
    assert_ne!(id, [0u8; 32]);
}

#[test]
fn peer_id_is_hash_of_encoded_address() {
    let id = peer_id("1.2.3.4", 0x0102);
    assert_eq!(id, peeroxide_dht::crypto::hash(&[1, 2, 3, 4, 0x02, 0x01]));
}
