use augr_core::codec::compute_ref;
use augr_core::memstore::MemStore;
use augr_core::store::{Store, StoreWrite};
use augr_core::types::{Event, Patch, StoreError};

fn ev(ts: u64, tags: &[&str], dev: &str) -> Event {
    Event {
        timestamp: ts,
        tags: tags.iter().map(|t| t.as_bytes().to_vec()).collect(),
        device_id: dev.as_bytes().to_vec(),
    }
}

fn root_patch(dev: &str, events: Vec<Event>, created_at: u64) -> Patch {
    Patch { parent: None, device_id: dev.as_bytes().to_vec(), events, created_at }
}

#[test]
fn write_then_read_round_trip() {
    let mut store = MemStore::new();
    let p = root_patch("A", vec![ev(32400, &["work", "email"], "A")], 32400);
    let r = store.write_patch(&p).unwrap();
    let back = store.get_patch(&r).unwrap();
    assert_eq!(back.device_id, b"A".to_vec());
    assert_eq!(back.created_at, 32400);
    assert!(back.parent.is_none());
    assert_eq!(back.events.len(), 1);
    assert_eq!(back.events[0].timestamp, 32400);
    assert_eq!(back.events[0].tags, vec![b"work".to_vec(), b"email".to_vec()]);
    assert_eq!(back.events[0].device_id, b"A".to_vec());
}

#[test]
fn same_content_same_ref_no_duplicate() {
    let mut store = MemStore::new();
    let p1 = root_patch("A", vec![ev(100, &["t"], "A")], 100);
    let p2 = root_patch("A", vec![ev(100, &["t"], "A")], 100);
    let r1 = store.write_patch(&p1).unwrap();
    let r2 = store.write_patch(&p2).unwrap();
    assert_eq!(r1.bytes, r2.bytes);
    assert_eq!(store.patch_count(), 1);
}

#[test]
fn different_content_different_ref() {
    let p1 = root_patch("A", vec![ev(100, &["t"], "A")], 100);
    let p2 = root_patch("A", vec![ev(101, &["t"], "A")], 100);
    let p3 = root_patch("A", vec![ev(100, &["u"], "A")], 100);
    let r1 = compute_ref(&p1);
    let r2 = compute_ref(&p2);
    let r3 = compute_ref(&p3);
    assert_ne!(r1.bytes, r2.bytes);
    assert_ne!(r1.bytes, r3.bytes);
    assert_ne!(r2.bytes, r3.bytes);
}

#[test]
fn get_patch_unknown_ref_is_not_found() {
    let store = MemStore::new();
    let p = root_patch("A", vec![ev(1, &["x"], "A")], 1);
    let r = compute_ref(&p);
    match store.get_patch(&r) {
        Err(StoreError::NotFound) => {},
        _ => panic!("expected NotFound"),
    }
}

#[test]
fn get_device_meta_unknown_device_is_not_found() {
    let store = MemStore::new();
    match store.get_device_meta(&b"nobody".to_vec()) {
        Err(StoreError::NotFound) => {},
        _ => panic!("expected NotFound"),
    }
}

#[test]
fn advance_head_conflict_on_stale_expectation() {
    let mut store = MemStore::new();
    let p1 = root_patch("A", vec![ev(1, &["x"], "A")], 1);
    let r1 = store.write_patch(&p1).unwrap();
    store.advance_head(&b"A".to_vec(), &r1, None).unwrap();
    // Expecting no meta while one exists races and conflicts.
    let p2 = Patch {
        parent: Some(r1.duplicate()),
        device_id: b"A".to_vec(),
        events: vec![ev(2, &["y"], "A")],
        created_at: 2,
    };
    let r2 = store.write_patch(&p2).unwrap();
    match store.advance_head(&b"A".to_vec(), &r2, None) {
        Err(StoreError::Conflict) => {},
        _ => panic!("expected Conflict"),
    }
    // A stale expected head conflicts as well.
    store.advance_head(&b"A".to_vec(), &r2, Some(&r1)).unwrap();
    match store.advance_head(&b"A".to_vec(), &r2, Some(&r1)) {
        Err(StoreError::Conflict) => {},
        _ => panic!("expected Conflict"),
    }
}
