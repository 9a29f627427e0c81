use peeroxide_dht::holepuncher::{match_address, remote_addresses, RemoteAddress};
use peeroxide_dht::messages::Ipv4Peer;

fn peer(host: &str, port: u16) -> Ipv4Peer {
    Ipv4Peer {
        host: host.into(),
        port,
    }
}

#[test]
fn match_address_exact_subnet() {
    let local = vec![peer("192.168.1.100", 5000)];
    let remote = vec![peer("192.168.1.50", 6000)];
    let result = match_address(&local, &remote).unwrap();
    assert_eq!(result.host, "192.168.1.50");
}

#[test]
fn match_address_partial_subnet() {
    let local = vec![peer("192.168.1.100", 5000)];
    let remote = vec![peer("192.168.2.50", 6000)];
    let result = match_address(&local, &remote).unwrap();
    assert_eq!(result.host, "192.168.2.50");
}

#[test]
fn match_address_different_network() {
    let local = vec![peer("192.168.1.100", 5000)];
    let remote = vec![peer("10.0.0.1", 6000)];
    assert!(match_address(&local, &remote).is_none());
}

#[test]
fn match_address_empty_remote() {
    let local = vec![peer("192.168.1.100", 5000)];
    assert!(match_address(&local, &[]).is_none());
}

#[test]
fn match_address_picks_closest() {
    let local = vec![peer("192.168.1.100", 5000)];
    let remote = vec![
        peer("192.168.2.50", 6000),
        peer("192.168.1.99", 7000),
    ];
    let result = match_address(&local, &remote).unwrap();
    assert_eq!(result.host, "192.168.1.99");
}

#[test]
fn match_address_first_octet_only() {
    let local = vec![peer("10.0.0.1", 5000)];
    let remote = vec![peer("10.1.2.3", 6000)];
    let result = match_address(&local, &remote).unwrap();
    assert_eq!(result.host, "10.1.2.3");
}


// ── Further cases ──

#[test]
fn match_address_skips_malformed_hosts() {
    let local = vec![peer("192.168.1", 5000), peer("10.1.2.9", 5001)];
    let remote = vec![peer("nonsense", 1), peer("10.1.2.3", 6000)];
    let result = match_address(&local, &remote).unwrap();
    assert_eq!(result.host, "10.1.2.3");
    assert_eq!(result.port, 6000);
}

#[test]
fn match_address_keeps_first_of_equal_prefix() {
    let local = vec![peer("10.0.0.1", 5000)];
    let remote = vec![peer("10.9.0.1", 1), peer("10.8.0.1", 2)];
    assert_eq!(match_address(&local, &remote).unwrap().port, 1);
}

#[test]
fn remote_addresses_marks_verified_hosts() {
    let previous = vec![RemoteAddress { host: "5.5.5.5".into(), port: 1, verified: true }];
    let update = vec![peer("5.5.5.5", 2), peer("6.6.6.6", 3), peer("7.7.7.7", 4)];
    let r = remote_addresses(&update, Some("6.6.6.6"), &previous);
    assert_eq!(r.len(), 3);
    assert!(r[0].verified);
    assert!(r[1].verified);
    assert!(!r[2].verified);
    assert_eq!(r[2].port, 4);
}
