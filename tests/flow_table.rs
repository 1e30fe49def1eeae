use reflector_watch::expiry::{stale, stale_requests, RemovalRequest};
use reflector_watch::frame::v4_key;
use reflector_watch::table::FlowTable;

fn addr(last: u8) -> u128 {
    v4_key(u32::from_be_bytes([10, 0, 0, last]))
}

fn sorted_addresses(reqs: &[RemovalRequest]) -> Vec<u128> {
    let mut v: Vec<u128> = reqs.iter().map(|r| r.address).collect();
    v.sort();
    v
}

#[test]
fn upsert_last_write_wins() {
    let mut t = FlowTable::new();
    let a = addr(1);
    for ts in [1i64, 5, 9, 12] {
        t.upsert(a, ts);
    }
    assert_eq!(t.get(a), Some(12));
    assert_eq!(t.len(), 1);
}

#[test]
fn upsert_overwrites_an_earlier_time_too() {
    let mut t = FlowTable::new();
    let a = addr(1);
    t.upsert(a, 10);
    t.upsert(a, 3);
    assert_eq!(t.get(a), Some(3));
}

#[test]
fn remove_absent_is_no_op() {
    let mut t = FlowTable::new();
    t.upsert(addr(1), 4);
    t.remove(addr(2));
    assert_eq!(t.len(), 1);
    assert_eq!(t.get(addr(1)), Some(4));
}

#[test]
fn remove_twice_same_as_once() {
    let mut once = FlowTable::new();
    let mut twice = FlowTable::new();
    for t in [&mut once, &mut twice] {
        t.upsert(addr(1), 1);
        t.upsert(addr(2), 2);
    }
    once.remove(addr(1));
    twice.remove(addr(1));
    twice.remove(addr(1));
    assert_eq!(once.len(), 1);
    assert_eq!(twice.len(), 1);
    assert_eq!(once.get(addr(1)), None);
    assert_eq!(twice.get(addr(2)), Some(2));
}

#[test]
fn removal_request_twice_same_as_once() {
    let mut t = FlowTable::new();
    t.upsert(addr(1), 1);
    t.upsert(addr(2), 2);
    let req = RemovalRequest { address: addr(1), observed: 1 };
    t.apply_removal(req);
    assert_eq!(t.len(), 1);
    t.apply_removal(req);
    assert_eq!(t.len(), 1);
    assert_eq!(t.get(addr(2)), Some(2));
}

#[test]
fn snapshot_lists_every_entry_once() {
    let mut t = FlowTable::new();
    t.upsert(addr(1), 1);
    t.upsert(addr(2), 2);
    t.upsert(addr(1), 3);
    let mut s = t.scan_snapshot();
    s.sort();
    assert_eq!(s, vec![(addr(1), 3), (addr(2), 2)]);
}

#[test]
fn empty_table_snapshot_and_cycle() {
    let t = FlowTable::new();
    assert!(t.scan_snapshot().is_empty());
    assert!(t.expiry_cycle(100, 5).is_empty());
}

#[test]
fn threshold_boundary() {
    let mut t = FlowTable::new();
    t.upsert(addr(1), 10);
    t.upsert(addr(2), 4);
    t.upsert(addr(3), 5);
    // now = 10, threshold = 5: 10 - 4 = 6 > 5 is stale, 10 - 5 = 5 is not.
    let reqs = t.expiry_cycle(10, 5);
    assert_eq!(reqs, vec![RemovalRequest { address: addr(2), observed: 4 }]);
}

#[test]
fn stale_rule_exact_values() {
    assert!(!stale(0, 5, 5));
    assert!(stale(0, 6, 5));
    assert!(!stale(7, 7, 0));
    assert!(!stale(i64::MIN, i64::MAX, u64::MAX));
    assert!(stale(i64::MIN, i64::MAX, u64::MAX - 1));
    assert!(!stale(i64::MAX, i64::MIN, 0));
}

#[test]
fn fresh_upsert_is_not_stale() {
    let mut t = FlowTable::new();
    t.upsert(addr(1), 42);
    assert!(t.expiry_cycle(42, 0).is_empty());
    assert!(t.expiry_cycle(42, 5).is_empty());
}

#[test]
fn scenario_single_address_goes_stale() {
    let mut t = FlowTable::new();
    let a = addr(1);
    t.upsert(a, 0);
    assert!(t.expiry_cycle(3, 5).is_empty());
    let reqs = t.expiry_cycle(6, 5);
    assert_eq!(reqs, vec![RemovalRequest { address: a, observed: 0 }]);
    t.drain_removals(&reqs);
    assert_eq!(t.get(a), None);
    assert_eq!(t.len(), 0);
}

#[test]
fn scenario_refresh_before_removal_survives() {
    let mut t = FlowTable::new();
    let a = addr(1);
    t.upsert(a, 0);
    let reqs = t.expiry_cycle(6, 5);
    assert_eq!(reqs, vec![RemovalRequest { address: a, observed: 0 }]);
    // The refresh lands before the removal request is applied.
    t.upsert(a, 6);
    t.drain_removals(&reqs);
    assert_eq!(t.get(a), Some(6));
    assert!(t.expiry_cycle(7, 5).is_empty());
}

#[test]
fn scenario_two_stale_addresses_alerted_once_each() {
    let mut t = FlowTable::new();
    let a = addr(1);
    let b = addr(2);
    t.upsert(a, 0);
    t.upsert(b, 1);
    t.upsert(addr(3), 9);
    let reqs = t.expiry_cycle(10, 5);
    let mut expected = vec![a, b];
    expected.sort();
    assert_eq!(sorted_addresses(&reqs), expected);
    t.drain_removals(&reqs);
    assert_eq!(t.len(), 1);
    assert_eq!(t.get(addr(3)), Some(9));
}

#[test]
fn stale_requests_skip_repeated_address() {
    let snapshot = vec![(addr(1), 0), (addr(2), 9), (addr(1), 1)];
    let reqs = stale_requests(&snapshot, 10, 5);
    assert_eq!(reqs, vec![RemovalRequest { address: addr(1), observed: 0 }]);
}

#[test]
fn scenario_many_distinct_upserts_with_scans() {
    let n: u32 = 500;
    let mut t = FlowTable::new();
    for i in 0..n {
        t.upsert(v4_key(0x0a00_0000 + i), i as i64);
        if i % 7 == 0 {
            let s = t.scan_snapshot();
            assert_eq!(s.len(), (i + 1) as usize);
            let _ = t.expiry_cycle(i as i64, 1000);
        }
    }
    assert_eq!(t.len(), n as usize);
}
