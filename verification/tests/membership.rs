//! Peer-table behaviour: insertion, fingerprints and their determinism.

use message_pool::pool::MessagePool;
use message_pool::structs::{NodeDetails, NodeStatus};
use message_pool::table::{control_nodes_hash, NodeDetailsToHelper};

fn record(addr: &str, status: NodeStatus) -> NodeDetails {
    NodeDetails {
        addr: addr.to_string(),
        node_hash: String::new(),
        last_access_time: 0,
        synced_time_as_secs: 0,
        status,
    }
}

fn pool_at(addr: &str) -> MessagePool {
    let mut p = MessagePool::new();
    p.configure(addr.to_string(), false);
    p.add_node_to_list(addr.to_string());
    p
}

#[test]
fn add_node_to_list_is_idempotent() {
    let mut p = pool_at("127.0.0.1:7001");
    assert!(p.add_node_to_list("127.0.0.1:7002".to_string()));
    let snap1 = p.clone_records();
    assert!(!p.add_node_to_list("127.0.0.1:7002".to_string()));
    let snap2 = p.clone_records();
    assert_eq!(snap1, snap2);
    assert!(!p.add_node_to_list(String::new()));
}

#[test]
fn self_record_is_online_and_unique() {
    let mut p = pool_at("127.0.0.1:7001");
    p.add_node_to_list("127.0.0.1:7002".to_string());
    p.add_node_to_list("127.0.0.1:7001".to_string());
    let snap = p.clone_records();
    let selfs: Vec<&NodeDetails> =
        snap.iter().filter(|n| n.addr == "127.0.0.1:7001").collect();
    assert_eq!(selfs.len(), 1);
    assert_eq!(selfs[0].status, NodeStatus::Online);
    assert_eq!(snap[1].status, NodeStatus::Unknown);
}

#[test]
fn add_node_to_lists_reports_any_insertion() {
    let mut p = pool_at("127.0.0.1:7001");
    assert!(p.add_node_to_lists(vec!["a:1".to_string(), "b:2".to_string()]));
    assert!(!p.add_node_to_lists(vec!["a:1".to_string(), "b:2".to_string()]));
    assert!(p.add_node_to_lists(vec!["a:1".to_string(), "c:3".to_string()]));
}

#[test]
fn hash_is_independent_of_insertion_order() {
    let one = vec![
        record("A", NodeStatus::Online),
        record("B", NodeStatus::Offline),
        record("C", NodeStatus::Unknown),
    ];
    let two = vec![
        record("C", NodeStatus::Unknown),
        record("A", NodeStatus::Online),
        record("B", NodeStatus::Offline),
    ];
    assert_eq!(one.calculate_hash(), two.calculate_hash());
}

#[test]
fn hash_matches_md5_of_canonical_json() {
    let t = vec![record("B", NodeStatus::Offline), record("A", NodeStatus::Online)];
    let list_hash = format!("{:x}", md5::compute("[\"A\",\"B\"]"));
    let status_hash = format!("{:x}", md5::compute("[\"A:Online\",\"B:Offline\"]"));
    let expected = format!("{}:{}", &list_hash[..5], &status_hash[..5]);
    assert_eq!(t.calculate_hash(), expected);
}

#[test]
fn hash_depends_on_status() {
    let t1 = vec![record("A", NodeStatus::Online), record("B", NodeStatus::Online)];
    let t2 = vec![record("A", NodeStatus::Online), record("B", NodeStatus::Offline)];
    let h1 = t1.calculate_hash();
    let h2 = t2.calculate_hash();
    assert_ne!(h1, h2);
    // same membership: the list half agrees, the status half differs
    assert_eq!(h1[..5], h2[..5]);
    assert_ne!(h1[6..], h2[6..]);
}

#[test]
fn to_node_list_is_sorted() {
    let t = vec![
        record("b:2", NodeStatus::Online),
        record("a:1", NodeStatus::Online),
        record("c:3", NodeStatus::Unknown),
    ];
    let l = t.to_node_list();
    assert_eq!(l, vec!["a:1".to_string(), "b:2".to_string(), "c:3".to_string()]);
}

#[test]
fn online_node_count_counts_online() {
    let t = vec![
        record("a", NodeStatus::Online),
        record("b", NodeStatus::Offline),
        record("c", NodeStatus::Online),
        record("d", NodeStatus::Unknown),
    ];
    assert_eq!(t.online_node_count(), 2);
}

#[test]
fn set_sync_time_touches_named_or_all() {
    let mut t = vec![record("a", NodeStatus::Online), record("b", NodeStatus::Online)];
    t.set_sync_time(vec!["a".to_string()], 7);
    assert_eq!(t[0].synced_time_as_secs, 7);
    assert_eq!(t[1].synced_time_as_secs, 0);
    t.set_sync_time(Vec::new(), 9);
    assert_eq!(t[0].synced_time_as_secs, 9);
    assert_eq!(t[1].synced_time_as_secs, 9);
}

#[test]
fn control_nodes_hash_ignores_empty_and_offline() {
    let mut a = record("a", NodeStatus::Online);
    a.node_hash = "h1".to_string();
    let mut b = record("b", NodeStatus::Online);
    b.node_hash = String::new();
    let mut c = record("c", NodeStatus::Offline);
    c.node_hash = "zz".to_string();
    assert!(control_nodes_hash(vec![a.clone(), b.clone(), c.clone()]));
    let mut d = record("d", NodeStatus::Online);
    d.node_hash = "h2".to_string();
    assert!(!control_nodes_hash(vec![a, b, c, d]));
}
