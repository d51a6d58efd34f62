use multimint::kv::KvStore;

fn bytes(s: &[u8]) -> Vec<u8> {
    s.to_vec()
}

#[test]
fn kv_round_trip() {
    let mut store = KvStore::new();
    let mut tx = store.begin_write();
    let k = bytes(b"k");
    assert_eq!(tx.insert(&k, bytes(b"v")), None);
    assert_eq!(tx.get(&k), Some(bytes(b"v")));
    assert_eq!(tx.insert(&k, bytes(b"v2")), Some(bytes(b"v")));
    assert_eq!(tx.remove(&k), Some(bytes(b"v2")));
    assert_eq!(tx.get(&k), None);
    tx.commit(&mut store).unwrap();
    assert_eq!(store.get(&k), None);
}

#[test]
fn prefix_scan_ordering() {
    let mut store = KvStore::new();
    let mut tx = store.begin_write();
    tx.insert(&bytes(b"a1"), bytes(b"1"));
    tx.insert(&bytes(b"a3"), bytes(b"3"));
    tx.insert(&bytes(b"a2"), bytes(b"2"));
    tx.insert(&bytes(b"b1"), bytes(b"4"));
    let asc = tx.scan_prefix(&bytes(b"a"));
    let asc_keys: Vec<Vec<u8>> = asc.into_iter().map(|p| p.0).collect();
    assert_eq!(asc_keys, vec![bytes(b"a1"), bytes(b"a2"), bytes(b"a3")]);
    let desc = tx.scan_prefix_desc(&bytes(b"a"));
    let desc_keys: Vec<Vec<u8>> = desc.into_iter().map(|p| p.0).collect();
    assert_eq!(desc_keys, vec![bytes(b"a3"), bytes(b"a2"), bytes(b"a1")]);
    tx.commit(&mut store).unwrap();
}

#[test]
fn range_scan_half_open() {
    let store = KvStore::new();
    let mut tx = store.begin_write();
    for k in [&b"k1"[..], b"k2", b"k3", b"k4", b"k5"] {
        tx.insert(&bytes(k), bytes(b"v"));
    }
    let hits = tx.scan_range(&bytes(b"k2"), &bytes(b"k4"));
    let keys: Vec<Vec<u8>> = hits.into_iter().map(|p| p.0).collect();
    assert_eq!(keys, vec![bytes(b"k2"), bytes(b"k3")]);
}

#[test]
fn savepoint_rollback() {
    let store = KvStore::new();
    let mut tx = store.begin_write();
    tx.set_savepoint();
    tx.insert(&bytes(b"k"), bytes(b"v"));
    tx.rollback_to_savepoint();
    assert_eq!(tx.get(&bytes(b"k")), None);
    // a second rollback with no new savepoint set is a no-op
    tx.insert(&bytes(b"k2"), bytes(b"v2"));
    tx.rollback_to_savepoint();
    assert_eq!(tx.get(&bytes(b"k2")), Some(bytes(b"v2")));
}

#[test]
fn remove_prefix_clears_namespace() {
    let store = KvStore::new();
    let mut tx = store.begin_write();
    tx.insert(&bytes(b"a1"), bytes(b"1"));
    tx.insert(&bytes(b"a2"), bytes(b"2"));
    tx.insert(&bytes(b"b1"), bytes(b"3"));
    tx.remove_prefix(&bytes(b"a"));
    assert_eq!(tx.get(&bytes(b"a1")), None);
    assert_eq!(tx.get(&bytes(b"a2")), None);
    assert_eq!(tx.get(&bytes(b"b1")), Some(bytes(b"3")));
}

#[test]
fn checkpoint_changes_nothing() {
    let mut store = KvStore::new();
    let mut tx = store.begin_write();
    tx.insert(&bytes(b"k"), bytes(b"v"));
    tx.commit(&mut store).unwrap();
    store.checkpoint("snapshots/one");
    assert_eq!(store.get(&bytes(b"k")), Some(bytes(b"v")));
}

#[test]
fn commit_makes_writes_visible() {
    let mut store = KvStore::new();
    let mut tx = store.begin_write();
    tx.insert(&bytes(b"k"), bytes(b"v"));
    assert_eq!(store.get(&bytes(b"k")), None);
    tx.commit(&mut store).unwrap();
    assert_eq!(store.get(&bytes(b"k")), Some(bytes(b"v")));
}
