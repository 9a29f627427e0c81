use peeroxide_dht::hyperdht_messages::{FIREWALL_CONSISTENT, FIREWALL_OPEN, FIREWALL_RANDOM, FIREWALL_UNKNOWN};
use peeroxide_dht::messages::Ipv4Peer;
use peeroxide_dht::nat_classifier::{add_sample, Nat};

fn peer(host: &str, port: u16) -> Ipv4Peer {
    Ipv4Peer {
        host: host.into(),
        port,
    }
}

#[test]
fn new_firewalled_starts_unknown() {
    let nat = Nat::new(true);
    assert_eq!(nat.firewall, FIREWALL_UNKNOWN);
    assert!(nat.addresses.is_none());
    assert_eq!(nat.sampled, 0);
}

#[test]
fn new_not_firewalled_starts_open() {
    let nat = Nat::new(false);
    assert_eq!(nat.firewall, FIREWALL_OPEN);
}

#[test]
fn add_sample_sorting() {
    let mut samples = Vec::new();
    add_sample(&mut samples, "1.2.3.4", 1000);
    add_sample(&mut samples, "5.6.7.8", 2000);
    add_sample(&mut samples, "1.2.3.4", 1000);
    assert_eq!(samples[0].host, "1.2.3.4");
    assert_eq!(samples[0].hits, 2);
    assert_eq!(samples[1].host, "5.6.7.8");
    assert_eq!(samples[1].hits, 1);
}

#[test]
fn add_sample_triple_hit_stays_sorted() {
    let mut samples = Vec::new();
    add_sample(&mut samples, "a", 1);
    add_sample(&mut samples, "b", 2);
    add_sample(&mut samples, "c", 3);
    add_sample(&mut samples, "b", 2);
    add_sample(&mut samples, "b", 2);
    assert_eq!(samples[0].host, "b");
    assert_eq!(samples[0].hits, 3);
}

#[test]
fn consistent_nat_three_same_port() {
    let mut nat = Nat::new(true);
    nat.add(&peer("1.2.3.4", 5000), &peer("10.0.0.1", 1));
    nat.add(&peer("1.2.3.4", 5000), &peer("10.0.0.2", 2));
    nat.add(&peer("1.2.3.4", 5000), &peer("10.0.0.3", 3));
    assert_eq!(nat.firewall, FIREWALL_CONSISTENT);
    assert!(nat.addresses.is_some());
    let addrs = nat.addresses.as_ref().unwrap();
    assert_eq!(addrs[0].host, "1.2.3.4");
    assert_eq!(addrs[0].port, 5000);
}

#[test]
fn random_nat_all_different_ports() {
    let mut nat = Nat::new(true);
    nat.add(&peer("1.2.3.4", 5000), &peer("10.0.0.1", 1));
    nat.add(&peer("1.2.3.4", 5001), &peer("10.0.0.2", 2));
    nat.add(&peer("1.2.3.4", 5002), &peer("10.0.0.3", 3));
    assert_eq!(nat.firewall, FIREWALL_RANDOM);
    let addrs = nat.addresses.as_ref().unwrap();
    assert_eq!(addrs.len(), 1);
    assert_eq!(addrs[0].host, "1.2.3.4");
}

#[test]
fn duplicate_from_ignored() {
    let mut nat = Nat::new(true);
    let from = peer("10.0.0.1", 1);
    nat.add(&peer("1.2.3.4", 5000), &from);
    nat.add(&peer("1.2.3.4", 5000), &from);
    assert_eq!(nat.sampled, 1);
}

#[test]
fn freeze_prevents_update() {
    let mut nat = Nat::new(true);
    nat.freeze();
    nat.add(&peer("1.2.3.4", 5000), &peer("10.0.0.1", 1));
    nat.add(&peer("1.2.3.4", 5000), &peer("10.0.0.2", 2));
    nat.add(&peer("1.2.3.4", 5000), &peer("10.0.0.3", 3));
    assert_eq!(nat.firewall, FIREWALL_UNKNOWN);
    assert!(nat.addresses.is_none());

    nat.unfreeze();
    assert_eq!(nat.firewall, FIREWALL_CONSISTENT);
    assert!(nat.addresses.is_some());
}

#[test]
fn not_firewalled_always_open() {
    let mut nat = Nat::new(false);
    nat.add(&peer("1.2.3.4", 5000), &peer("10.0.0.1", 1));
    assert_eq!(nat.firewall, FIREWALL_OPEN);
}

#[test]
fn mark_visited_dedup() {
    let mut nat = Nat::new(true);
    assert!(nat.mark_visited("1.2.3.4", 1000));
    assert!(!nat.mark_visited("1.2.3.4", 1000));
}

#[test]
fn two_hits_multi_host_consistent() {
    let mut nat = Nat::new(true);
    nat.add(&peer("1.2.3.4", 5000), &peer("10.0.0.1", 1));
    nat.add(&peer("1.2.3.4", 5000), &peer("10.0.0.2", 2));
    nat.add(&peer("5.6.7.8", 5000), &peer("10.0.0.3", 3));
    // max=2, hosts>1, full[1].hits=1 → not enough evidence yet
    assert_eq!(nat.firewall, FIREWALL_UNKNOWN);

    nat.add(&peer("5.6.7.8", 5000), &peer("10.0.0.4", 4));
    // full[1].hits=2 with hosts>1 → consistent
    assert_eq!(nat.firewall, FIREWALL_CONSISTENT);
}

#[test]
fn two_hits_single_host_over_three_random() {
    let mut nat = Nat::new(true);
    nat.add(&peer("1.2.3.4", 5000), &peer("10.0.0.1", 1));
    nat.add(&peer("1.2.3.4", 5000), &peer("10.0.0.2", 2));
    nat.add(&peer("1.2.3.4", 5001), &peer("10.0.0.3", 3));
    // max=2, 1 host, sampled=3 → not enough evidence
    assert_eq!(nat.firewall, FIREWALL_UNKNOWN);

    nat.add(&peer("1.2.3.4", 5002), &peer("10.0.0.4", 4));
    // max=2, 1 host, sampled>3 → random
    assert_eq!(nat.firewall, FIREWALL_RANDOM);
}

#[test]
fn over_four_samples_no_decision_random() {
    let mut nat = Nat::new(true);
    nat.add(&peer("1.2.3.4", 5000), &peer("10.0.0.1", 1));
    nat.add(&peer("5.6.7.8", 6000), &peer("10.0.0.2", 2));
    nat.add(&peer("1.2.3.4", 5000), &peer("10.0.0.3", 3));
    assert_eq!(nat.firewall, FIREWALL_UNKNOWN);

    nat.add(&peer("9.9.9.9", 7000), &peer("10.0.0.4", 4));
    assert_eq!(nat.firewall, FIREWALL_UNKNOWN);

    nat.add(&peer("8.8.8.8", 8000), &peer("10.0.0.5", 5));
    // sampled>4, no strong signal → random
    assert_eq!(nat.firewall, FIREWALL_RANDOM);
}

#[test]
fn update_resets_open_if_firewalled() {
    let mut nat = Nat::new(false);
    assert_eq!(nat.firewall, FIREWALL_OPEN);

    nat.firewalled = true;
    nat.update();
    assert_eq!(nat.firewall, FIREWALL_UNKNOWN);
}

#[test]
fn consistent_addresses_include_high_hit_entries() {
    let mut nat = Nat::new(true);
    nat.add(&peer("1.2.3.4", 5000), &peer("10.0.0.1", 1));
    nat.add(&peer("1.2.3.4", 5000), &peer("10.0.0.2", 2));
    nat.add(&peer("1.2.3.4", 5000), &peer("10.0.0.3", 3));
    assert_eq!(nat.firewall, FIREWALL_CONSISTENT);

    let addrs = nat.addresses.as_ref().unwrap();
    assert_eq!(addrs.len(), 1);
    assert_eq!(addrs[0].port, 5000);

    nat.add(&peer("1.2.3.4", 6000), &peer("10.0.0.4", 4));
    let addrs = nat.addresses.as_ref().unwrap();
    assert!(addrs.len() >= 2);
}


// ── Further cases ──

#[test]
fn destroy_stops_classification() {
    let mut nat = Nat::new(true);
    nat.destroy();
    nat.add(&peer("1.2.3.4", 5000), &peer("10.0.0.1", 1));
    nat.add(&peer("1.2.3.4", 5000), &peer("10.0.0.2", 2));
    nat.add(&peer("1.2.3.4", 5000), &peer("10.0.0.3", 3));
    assert_eq!(nat.firewall, FIREWALL_UNKNOWN);
}

#[test]
fn settled_once_classified() {
    let mut nat = Nat::new(true);
    assert!(!nat.is_settled());
    nat.add(&peer("1.2.3.4", 5000), &peer("10.0.0.1", 1));
    nat.add(&peer("1.2.3.4", 5000), &peer("10.0.0.2", 2));
    nat.add(&peer("1.2.3.4", 5000), &peer("10.0.0.3", 3));
    assert_eq!(nat.firewall, FIREWALL_CONSISTENT);
    assert!(nat.is_settled());
}
