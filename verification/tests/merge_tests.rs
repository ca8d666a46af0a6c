use augr_core::chain::walk_chain;
use augr_core::codec::compute_ref;
use augr_core::memstore::MemStore;
use augr_core::merge::merge;
use augr_core::record::record;
use augr_core::store::StoreWrite;
use augr_core::types::{Event, Patch, StoreError};

fn ev(ts: u64, tags: &[&str], dev: &str) -> Event {
    Event {
        timestamp: ts,
        tags: tags.iter().map(|t| t.as_bytes().to_vec()).collect(),
        device_id: dev.as_bytes().to_vec(),
    }
}

fn ids(names: &[&str]) -> Vec<Vec<u8>> {
    names.iter().map(|n| n.as_bytes().to_vec()).collect()
}

#[test]
fn record_chains_patches_newest_first() {
    let mut store = MemStore::new();
    record(&mut store, &b"A".to_vec(), ev(100, &["a"], "A")).unwrap();
    let head = record(&mut store, &b"A".to_vec(), ev(200, &["b"], "A")).unwrap();
    let chain = walk_chain(&store, &head).unwrap();
    assert_eq!(chain.len(), 2);
    assert_eq!(chain[0].events[0].timestamp, 200);
    assert_eq!(chain[1].events[0].timestamp, 100);
    assert!(chain[1].parent.is_none());
    assert_eq!(chain[0].parent.as_ref().unwrap().bytes, compute_ref(&chain[1]).bytes);
}

#[test]
fn merge_two_devices_sorted_by_timestamp() {
    // Device A records at 09:00 and 10:30; device B, never having seen A,
    // records at 09:45. The merged timeline is [09:00@A, 09:45@B, 10:30@A].
    let mut store = MemStore::new();
    record(&mut store, &b"A".to_vec(), ev(32400, &["morning"], "A")).unwrap();
    record(&mut store, &b"A".to_vec(), ev(37800, &["break"], "A")).unwrap();
    record(&mut store, &b"B".to_vec(), ev(35100, &["meeting"], "B")).unwrap();
    let t = merge(&store, &ids(&["A", "B"]));
    assert!(t.broken_devices.is_empty());
    let stamps: Vec<u64> = t.events.iter().map(|e| e.timestamp).collect();
    assert_eq!(stamps, vec![32400, 35100, 37800]);
    let devs: Vec<Vec<u8>> = t.events.iter().map(|e| e.device_id.clone()).collect();
    assert_eq!(devs, ids(&["A", "B", "A"]));
}

#[test]
fn merge_is_deterministic_across_discovery_order() {
    let mut store = MemStore::new();
    record(&mut store, &b"A".to_vec(), ev(10, &["a"], "A")).unwrap();
    record(&mut store, &b"B".to_vec(), ev(10, &["b"], "B")).unwrap();
    record(&mut store, &b"C".to_vec(), ev(5, &["c"], "C")).unwrap();
    let t1 = merge(&store, &ids(&["A", "B", "C"]));
    let t2 = merge(&store, &ids(&["C", "B", "A"]));
    let s1: Vec<(u64, Vec<u8>)> = t1.events.iter().map(|e| (e.timestamp, e.device_id.clone())).collect();
    let s2: Vec<(u64, Vec<u8>)> = t2.events.iter().map(|e| (e.timestamp, e.device_id.clone())).collect();
    assert_eq!(s1, s2);
    // Equal timestamps are tie-broken by device id.
    assert_eq!(s1, vec![(5, b"C".to_vec()), (10, b"A".to_vec()), (10, b"B".to_vec())]);
}

#[test]
fn merge_deduplicates_patch_reachable_via_two_chains() {
    // The same patch is advertised as the head of two device metas, as
    // duplicate replication could produce; its events appear exactly once.
    let mut store = MemStore::new();
    let head = record(&mut store, &b"A".to_vec(), ev(100, &["shared"], "A")).unwrap();
    store.advance_head(&b"B".to_vec(), &head, None).unwrap();
    let t = merge(&store, &ids(&["A", "B"]));
    assert!(t.broken_devices.is_empty());
    assert_eq!(t.events.len(), 1);
    assert_eq!(t.events[0].timestamp, 100);
    assert_eq!(t.events[0].device_id, b"A".to_vec());
}

#[test]
fn merge_skips_devices_without_meta() {
    let mut store = MemStore::new();
    record(&mut store, &b"A".to_vec(), ev(100, &["a"], "A")).unwrap();
    let t = merge(&store, &ids(&["A", "ghost"]));
    assert!(t.broken_devices.is_empty());
    assert_eq!(t.events.len(), 1);
}

#[test]
fn merge_degrades_device_with_missing_patch() {
    // B's meta is replicated before its only patch: B's contribution is
    // degraded and reported, A's timeline is unaffected.
    let mut store = MemStore::new();
    record(&mut store, &b"A".to_vec(), ev(32400, &["morning"], "A")).unwrap();
    record(&mut store, &b"A".to_vec(), ev(37800, &["break"], "A")).unwrap();
    let missing = Patch {
        parent: None,
        device_id: b"B".to_vec(),
        events: vec![ev(35100, &["meeting"], "B")],
        created_at: 35100,
    };
    let missing_ref = compute_ref(&missing);
    store.advance_head(&b"B".to_vec(), &missing_ref, None).unwrap();
    let t = merge(&store, &ids(&["A", "B"]));
    let stamps: Vec<u64> = t.events.iter().map(|e| e.timestamp).collect();
    assert_eq!(stamps, vec![32400, 37800]);
    assert_eq!(t.broken_devices, ids(&["B"]));
}

#[test]
fn merge_keeps_reachable_prefix_of_broken_chain() {
    // C's newest patch is present but its parent is not: the newest patch
    // still contributes, and C is reported broken.
    let lost = Patch {
        parent: None,
        device_id: b"C".to_vec(),
        events: vec![ev(50, &["lost"], "C")],
        created_at: 50,
    };
    let lost_ref = compute_ref(&lost);
    let kept = Patch {
        parent: Some(lost_ref),
        device_id: b"C".to_vec(),
        events: vec![ev(60, &["kept"], "C")],
        created_at: 60,
    };
    let mut s2 = MemStore::new();
    let kept_ref = s2.write_patch(&kept).unwrap();
    s2.advance_head(&b"C".to_vec(), &kept_ref, None).unwrap();
    let t = merge(&s2, &ids(&["C"]));
    assert_eq!(t.broken_devices, ids(&["C"]));
    let stamps: Vec<u64> = t.events.iter().map(|e| e.timestamp).collect();
    assert_eq!(stamps, vec![60]);
    match walk_chain(&s2, &kept_ref) {
        Err(StoreError::Broken) => {},
        _ => panic!("expected Broken"),
    }
}

#[test]
fn duration_split_matches_rendering_rule() {
    assert_eq!(augr_core::duration_hours_minutes(45), (0, 45));
    assert_eq!(augr_core::duration_hours_minutes(60), (1, 0));
    assert_eq!(augr_core::duration_hours_minutes(125), (2, 5));
}
