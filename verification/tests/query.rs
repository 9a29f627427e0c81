use peeroxide_dht::messages::Ipv4Peer;
use peeroxide_dht::peer::NodeId;
use peeroxide_dht::query::{parse_bootstrap_str, ClosestReplies, IoResponseData, Query, QueryReply, QueryRequest};
use peeroxide_dht::routing_table::{Node, RoutingTable, K};
use std::time::Duration;

fn peer(host: &str, port: u16) -> Ipv4Peer {
    Ipv4Peer { host: host.into(), port }
}

fn reply_with_id(id: NodeId, port: u16) -> QueryReply {
    QueryReply {
        from: peer("127.0.0.1", port),
        from_id: Some(id),
        token: None,
        closer_nodes: vec![],
        error: 0,
        value: None,
        rtt: Duration::from_millis(5),
    }
}

fn make_query_with_k(target: NodeId, k: usize) -> ClosestReplies {
    ClosestReplies::new(target, k)
}

fn make_query(target: NodeId) -> ClosestReplies {
    make_query_with_k(target, K)
}

#[test]
fn query_test_bootstrap_parse_simple() {
    let (host, port) = parse_bootstrap_str("192.168.1.1:7777").expect("parse");
    assert_eq!(host, "192.168.1.1");
    assert_eq!(port, 7777);
}

#[test]
fn test_bootstrap_parse_with_suggested_ip() {
    let (host, port) = parse_bootstrap_str("10.0.0.1@bootstrap.example.com:24242").expect("parse with @");
    assert_eq!(port, 24242);
    assert_eq!(host, "10.0.0.1");
}

#[test]
fn test_bootstrap_parse_bad() {
    assert!(parse_bootstrap_str("nocolon").is_none());
}

#[test]
fn test_compare_identical() {
    let q = make_query([0u8; 32]);
    let a = [1u8; 32];
    assert_eq!(q.compare(&a, &a), 0);
}

#[test]
fn test_compare_a_closer() {
    let q = make_query([0u8; 32]);
    let mut a = [0u8; 32];
    a[0] = 0x01;
    let mut b = [0u8; 32];
    b[0] = 0x02;
    assert!(q.compare(&a, &b) < 0, "a should be closer than b");
}

#[test]
fn test_compare_b_closer() {
    let q = make_query([0u8; 32]);
    let mut a = [0u8; 32];
    a[0] = 0x04;
    let mut b = [0u8; 32];
    b[0] = 0x01;
    assert!(q.compare(&a, &b) > 0, "b should be closer than a");
}

#[test]
fn test_compare_tiebreak_second_byte() {
    let mut target = [0u8; 32];
    target[0] = 0xFF;
    let q = make_query(target);
    let mut a = [0xFFu8; 32];
    a[1] = 0x01;
    let mut b = [0xFFu8; 32];
    b[1] = 0x02;
    assert!(q.compare(&a, &b) < 0);
}

#[test]
fn test_push_closest_sorted_order() {
    let mut q = make_query_with_k([0u8; 32], 20);
    let mut id1 = [0u8; 32];
    id1[0] = 0x01;
    let mut id2 = [0u8; 32];
    id2[0] = 0x02;
    let mut id4 = [0u8; 32];
    id4[0] = 0x04;

    q.push_closest(reply_with_id(id4, 4));
    q.push_closest(reply_with_id(id1, 1));
    q.push_closest(reply_with_id(id2, 2));

    assert_eq!(q.replies().len(), 3);
    assert_eq!(q.replies()[0].from_id, Some(id1));
    assert_eq!(q.replies()[1].from_id, Some(id2));
    assert_eq!(q.replies()[2].from_id, Some(id4));
}

#[test]
fn test_push_closest_cap_at_k() {
    let mut q = make_query_with_k([0u8; 32], 3);
    for i in 1u8..=5 {
        let mut id = [0u8; 32];
        id[0] = i * 0x10;
        q.push_closest(reply_with_id(id, i as u16));
    }
    assert_eq!(q.replies().len(), 3, "capped at k=3");
}

#[test]
fn test_push_closest_dedup() {
    let mut q = make_query_with_k([0u8; 32], 20);
    let mut id = [0u8; 32];
    id[0] = 0x10;
    q.push_closest(reply_with_id(id, 1));
    q.push_closest(reply_with_id(id, 2));
    assert_eq!(q.replies().len(), 1, "duplicate should be discarded");
}

#[test]
fn test_is_closer_empty_set() {
    let q = make_query([0u8; 32]);
    assert!(q.is_closer(&[0xFFu8; 32]), "anything is closer when set is empty");
}

#[test]
fn test_is_closer_full_set() {
    let mut q = make_query_with_k([0u8; 32], 2);
    let mut id1 = [0u8; 32];
    id1[0] = 0x01;
    let mut id4 = [0u8; 32];
    id4[0] = 0x04;
    q.push_closest(reply_with_id(id1, 1));
    q.push_closest(reply_with_id(id4, 2));

    let mut closer = [0u8; 32];
    closer[0] = 0x02;
    assert!(q.is_closer(&closer));

    let mut farther = [0u8; 32];
    farther[0] = 0x08;
    assert!(!q.is_closer(&farther));
}

#[test]
fn test_query_default_k_is_20() {
    let q = make_query([0u8; 32]);
    assert_eq!(q.k(), 20);
}

// ── Further cases ──

#[test]
fn compare_value_is_difference_of_distance_bytes() {
    let mut target = [0u8; 32];
    target[3] = 0x0f;
    let q = make_query(target);
    let mut a = [0u8; 32];
    a[3] = 0x01;
    let mut b = [0u8; 32];
    b[3] = 0x0f;
    assert_eq!(q.compare(&a, &b), 0x0e - 0x00);
}

#[test]
fn push_closest_without_id_is_ignored() {
    let mut q = make_query_with_k([0u8; 32], 4);
    let mut r = reply_with_id([1; 32], 1);
    r.from_id = None;
    q.push_closest(r);
    assert!(q.replies().is_empty());
}

#[test]
fn push_closest_cap_drops_the_farthest() {
    let mut q = make_query_with_k([0u8; 32], 2);
    for b in [0x30u8, 0x10, 0x20] {
        let mut id = [0u8; 32];
        id[0] = b;
        q.push_closest(reply_with_id(id, b as u16));
    }
    assert_eq!(q.replies().len(), 2);
    assert_eq!(q.replies()[0].from.port, 0x10);
    assert_eq!(q.replies()[1].from.port, 0x20);
}

fn table_node(id: NodeId, host: &str, port: u16) -> Node {
    Node { id, host: host.into(), port, token: None, added_tick: 0, seen_tick: 0, pinged_tick: 0, down_hints: 0 }
}

#[test]
fn test_add_from_table_populates_pending() {
    let target = [0u8; 32];
    let mut table = RoutingTable::new([0u8; 32]);
    let mut nid = [0u8; 32];
    nid[0] = 0x42;
    table.add(table_node(nid, "127.0.0.1", 8888));
    let mut q = Query::new(1, target, true, 2, None, 10, false, [0u8; 32]);
    assert_eq!(q.pending_len(), 0);
    q.add_from_table(&table);
    assert!(q.from_table(), "from_table flag should be set");
    assert!(q.pending_len() > 0, "pending should have the table node");
}

#[test]
fn query_new_k_is_bucket_size() {
    let q = Query::new(1, [0u8; 32], true, 2, None, 3, false, [0u8; 32]);
    assert_eq!(q.k(), 20);
    assert!(!q.is_finished());
}

fn response(from: Ipv4Peer, id: Option<NodeId>, closer: Vec<Ipv4Peer>) -> IoResponseData {
    IoResponseData {
        from,
        from_id: id,
        token: Some([7u8; 32]),
        closer_nodes: closer,
        error: 0,
        value: None,
        rtt: Duration::from_millis(1),
    }
}

fn query_targets(reqs: &[QueryRequest]) -> Vec<(String, u16)> {
    reqs.iter()
        .filter_map(|r| match r {
            QueryRequest::Query(p) => Some((p.to.host.clone(), p.to.port)),
            _ => None,
        })
        .collect()
}

#[test]
fn query_runs_to_completion_without_commit() {
    let table = RoutingTable::new([0u8; 32]);
    let mut q = Query::new(9, [0x11u8; 32], false, 2, None, 3, false, [0xeeu8; 32]);
    q.add_nodes(&[("10.0.0.1".to_string(), 1000), ("10.0.0.2".to_string(), 1001)]);
    let first = q.poll_requests(&table);
    // The most recently added node is asked first.
    assert_eq!(query_targets(&first), vec![("10.0.0.2".to_string(), 1001), ("10.0.0.1".to_string(), 1000)]);
    let more = q.on_response(response(peer("10.0.0.2", 1001), Some([0x12u8; 32]), vec![peer("10.0.0.3", 1002)]), &table);
    assert_eq!(query_targets(&more), vec![("10.0.0.3".to_string(), 1002)]);
    assert!(!q.is_finished());
    q.on_timeout(&peer("10.0.0.3", 1002), &table);
    assert!(!q.is_finished());
    let last = q.on_response(response(peer("10.0.0.1", 1000), Some([0x13u8; 32]), vec![]), &table);
    assert!(query_targets(&last).is_empty());
    assert!(q.is_finished());
    let result = q.take_result().unwrap();
    assert_eq!(result.successes, 2);
    assert_eq!(result.errors, 1);
    assert_eq!(result.closest_replies.len(), 2);
    // Closest first: 0x13 ^ 0x11 = 0x02 is closer to the target than 0x12 ^ 0x11 = 0x03.
    assert_eq!(result.closest_replies[0].from_id, Some([0x13u8; 32]));
    assert!(q.take_result().is_none());
}

#[test]
fn query_with_commit_sends_commits_to_tokens() {
    let table = RoutingTable::new([0u8; 32]);
    let mut q = Query::new(9, [0x11u8; 32], false, 5, Some(vec![1, 2, 3]), 3, true, [0xeeu8; 32]);
    q.add_nodes(&[("10.0.0.1".to_string(), 1000)]);
    let _ = q.poll_requests(&table);
    let reqs = q.on_response(response(peer("10.0.0.1", 1000), Some([0x12u8; 32]), vec![]), &table);
    let commits: Vec<_> = reqs
        .iter()
        .filter_map(|r| match r {
            QueryRequest::Commit(p) => Some((p.to.host.clone(), p.token, p.value.clone())),
            _ => None,
        })
        .collect();
    assert_eq!(commits, vec![("10.0.0.1".to_string(), Some([7u8; 32]), Some(vec![1, 2, 3]))]);
    assert!(!q.is_finished());
    assert!(q.on_commit_done());
    assert!(q.is_finished());
}

#[test]
fn timeout_of_suggested_node_hints_referrer() {
    let table = RoutingTable::new([0u8; 32]);
    let mut q = Query::new(9, [0x11u8; 32], false, 2, None, 1, false, [0xeeu8; 32]);
    q.add_nodes(&[("10.0.0.1".to_string(), 1000)]);
    let _ = q.poll_requests(&table);
    let _ = q.on_response(response(peer("10.0.0.1", 1000), Some([0x12u8; 32]), vec![peer("10.0.0.9", 1009)]), &table);
    let reqs = q.on_timeout(&peer("10.0.0.9", 1009), &table);
    let hints: Vec<_> = reqs
        .iter()
        .filter_map(|r| match r {
            QueryRequest::DownHint(p) => Some((p.to.host.clone(), p.to.port, p.value.clone())),
            _ => None,
        })
        .collect();
    assert_eq!(hints, vec![("10.0.0.1".to_string(), 1000, Some(vec![10, 0, 0, 9, 0xf1, 0x03]))]);
}
