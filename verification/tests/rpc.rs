use peeroxide_dht::query::parse_bootstrap_str;
use peeroxide_dht::rpc::{
    bucket_full_reping, down_hint_peer, reping_candidate, tick_step, DhtConfig, DhtError, TickState, DOWN_HINTS_RATE_LIMIT, OLD_NODE,
    RECENT_NODE, REFRESH_TICKS,
};

#[test]
fn test_dht_config_defaults() {
    let cfg = DhtConfig::default();
    assert_eq!(cfg.port, 0);
    assert_eq!(cfg.host, "0.0.0.0");
    assert_eq!(cfg.concurrency, 10);
    assert_eq!(cfg.max_window, 80);
    assert!(cfg.firewalled);
    assert!(cfg.bootstrap.is_empty());
    assert!(cfg.ephemeral.is_none());
}

#[test]
fn rpc_test_bootstrap_parse_simple() {
    let (host, port) = parse_bootstrap_str("127.0.0.1:10001").expect("parse");
    assert_eq!(host, "127.0.0.1");
    assert_eq!(port, 10001);
}

#[test]
fn test_bootstrap_parse_with_at() {
    let (host, port) = parse_bootstrap_str("10.0.0.1@bootstrap.example.com:24242").expect("should parse");
    assert_eq!(host, "10.0.0.1");
    assert_eq!(port, 24242);
}

#[test]
fn test_bootstrap_parse_bad_no_colon() {
    assert!(parse_bootstrap_str("localhost").is_none());
}

#[test]
fn test_bootstrap_parse_bad_port() {
    assert!(parse_bootstrap_str("localhost:notaport").is_none());
}

#[test]
fn test_err_display() {
    let e = DhtError::Destroyed;
    assert!(e.to_string().contains("destroyed"));
}

#[test]
fn test_down_hints_rate_limit_constant() {
    assert_eq!(DOWN_HINTS_RATE_LIMIT, 50);
}

#[test]
fn test_tick_constants() {
    assert_eq!(REFRESH_TICKS, 60);
    assert_eq!(RECENT_NODE, 12);
    assert_eq!(OLD_NODE, 360);
}

// ── Further cases ──

#[test]
fn dht_error_messages() {
    assert_eq!(DhtError::RequestFailed("x".into()).to_string(), "request failed: x");
    assert_eq!(DhtError::Io("y".into()).to_string(), "IO error: y");
    assert_eq!(DhtError::BootstrapFailed.to_string(), "bootstrap failed");
    assert_eq!(DhtError::ChannelClosed.to_string(), "command channel closed");
}

#[test]
fn bootstrap_port_out_of_range_is_refused() {
    assert!(parse_bootstrap_str("1.2.3.4:65536").is_none());
    assert_eq!(parse_bootstrap_str("1.2.3.4:+80"), Some(("1.2.3.4".to_string(), 80)));
}

#[test]
fn bootstrap_uses_last_colon_and_first_at() {
    assert_eq!(parse_bootstrap_str("a@b@c:d:7"), Some(("a".to_string(), 7)));
    assert_eq!(parse_bootstrap_str(":1"), Some(("".to_string(), 1)));
}

fn tick_node(pinged: u64, added: u64, seen: u64) -> peeroxide_dht::routing_table::Node {
    peeroxide_dht::routing_table::Node {
        id: [0u8; 32],
        host: "1.2.3.4".to_string(),
        port: 1,
        token: None,
        added_tick: added,
        seen_tick: seen,
        pinged_tick: pinged,
        down_hints: 0,
    }
}

#[test]
fn tick_advances_and_schedules_work() {
    let (s, a) = tick_step(TickState { tick: 7, refresh_ticks: 2 }, 5_000, true);
    assert_eq!((s.tick, s.refresh_ticks), (8, 1));
    assert!(a.ping_some && !a.refresh);
    let (s, a) = tick_step(s, 5_000, true);
    assert_eq!((s.tick, s.refresh_ticks), (9, REFRESH_TICKS));
    assert!(!a.ping_some && a.refresh);
    // After a sleep: 9 + 720 = 729, then up to 736; the refresh is due now.
    let (s, a) = tick_step(TickState { tick: 9, refresh_ticks: 40 }, 20_000, true);
    assert_eq!((s.tick, s.refresh_ticks), (736, REFRESH_TICKS));
    assert!(a.ping_some && a.refresh);
    let (s, a) = tick_step(TickState { tick: 9, refresh_ticks: 40 }, 20_000, false);
    assert_eq!((s.tick, s.refresh_ticks), (736, 1));
    assert!(!a.ping_some && !a.refresh);
}

#[test]
fn full_bucket_repings_the_oldest() {
    let nodes = vec![tick_node(5, 3, 5), tick_node(2, 9, 2), tick_node(2, 4, 2), tick_node(10, 0, 10)];
    assert_eq!(reping_candidate(&nodes, 10), Some(2));
    assert_eq!(bucket_full_reping(true, 0, &nodes, 10), Some(2));
    assert_eq!(bucket_full_reping(false, 0, &nodes, 10), None);
    assert_eq!(bucket_full_reping(true, 3, &nodes, 10), None);
    // Seen recently and old: kept without a ping.
    let kept = vec![tick_node(395, 1, 395)];
    assert_eq!(bucket_full_reping(true, 0, &kept, 400), None);
    let all_pinged = vec![tick_node(10, 0, 10)];
    assert_eq!(reping_candidate(&all_pinged, 10), None);
}

#[test]
fn down_hint_names_host_and_port() {
    let p = down_hint_peer(&Some(vec![10, 0, 0, 7, 0x39, 0x30, 99])).unwrap();
    assert_eq!((p.host.as_str(), p.port), ("10.0.0.7", 12345));
    assert!(down_hint_peer(&Some(vec![1, 2, 3, 4, 5])).is_none());
    assert!(down_hint_peer(&None).is_none());
}
