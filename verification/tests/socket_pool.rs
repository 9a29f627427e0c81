use peeroxide_dht::hyperdht_messages::{FIREWALL_CONSISTENT, FIREWALL_OPEN, FIREWALL_RANDOM, FIREWALL_UNKNOWN};
use peeroxide_dht::socket_pool::{coerce_firewall, SocketPool};

#[test]
fn coerce_open_to_consistent() {
    assert_eq!(coerce_firewall(FIREWALL_OPEN), FIREWALL_CONSISTENT);
}

#[test]
fn coerce_consistent_unchanged() {
    assert_eq!(coerce_firewall(FIREWALL_CONSISTENT), FIREWALL_CONSISTENT);
}

#[test]
fn coerce_random_unchanged() {
    assert_eq!(coerce_firewall(FIREWALL_RANDOM), FIREWALL_RANDOM);
}

#[test]
fn coerce_unknown_unchanged() {
    assert_eq!(coerce_firewall(FIREWALL_UNKNOWN), FIREWALL_UNKNOWN);
}

#[test]
fn socket_pool_new_builds() {
    let _pool = SocketPool::new("0.0.0.0".to_string());
    assert_eq!(coerce_firewall(42), 42);
}
