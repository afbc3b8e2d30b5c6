// The engine behind a lock that several handles share.

use lsmdb::storage::Storage;
use lsmdb::{LsmEngine, Snapshot, WriteBatch};
use std::sync::{Arc, RwLock};

#[derive(Clone)]
struct Shared(Arc<RwLock<LsmEngine>>);

impl Shared {
    fn open() -> Shared {
        Shared(Arc::new(RwLock::new(LsmEngine::open(&Storage::new()).unwrap())))
    }

    fn put(&self, key: &str, value: &str) {
        self.0.write().unwrap().put(b(key), b(value)).unwrap();
    }

    fn get(&self, key: &str) -> Option<Vec<u8>> {
        self.0.read().unwrap().get(key.as_bytes()).unwrap()
    }

    fn snapshot(&self) -> Snapshot {
        self.0.read().unwrap().snapshot().unwrap()
    }
}

fn b(s: &str) -> Vec<u8> {
    s.as_bytes().to_vec()
}

fn wait_ms(ms: u64) {
    let start = std::time::Instant::now();
    while start.elapsed() < std::time::Duration::from_millis(ms) {}
}

#[test]
fn write_batch_via_shared_engine() {
    let db = Shared::open();
    let mut batch = WriteBatch::new();
    batch.put("default", b("x"), b("1")).put("default", b("y"), b("2")).delete("default", b("z"));
    db.0.write().unwrap().write_batch(batch).unwrap();

    assert_eq!(db.get("x").as_deref(), Some(b"1".as_ref()));
    assert_eq!(db.get("y").as_deref(), Some(b"2".as_ref()));
    assert_eq!(db.get("z"), None);
}

#[test]
fn snapshot_via_shared_engine_is_consistent() {
    let db = Shared::open();
    db.put("snap_key", "snap_val");
    let snap = db.snapshot();
    db.put("snap_key", "new_val");

    assert_eq!(snap.get(b"snap_key"), Some(b"snap_val".as_ref()));
    assert_eq!(db.get("snap_key").as_deref(), Some(b"new_val".as_ref()));
}

#[test]
fn ttl_via_shared_engine() {
    let db = Shared::open();
    db.0.write().unwrap().put_with_ttl(b("tk"), b("tv"), 100).unwrap();
    assert_eq!(db.get("tk").as_deref(), Some(b"tv".as_ref()));
    wait_ms(200);
    assert_eq!(db.get("tk"), None);
}

#[test]
fn delete_range_via_shared_engine() {
    let db = Shared::open();
    for i in 0..5u32 {
        db.put(&format!("r:{i}"), "v");
    }
    db.0.write().unwrap().delete_range(b("r:1"), b("r:4")).unwrap();

    assert!(db.get("r:0").is_some());
    assert!(db.get("r:1").is_none());
    assert!(db.get("r:3").is_none());
    assert!(db.get("r:4").is_some());
}

#[test]
fn handles_share_one_engine() {
    let db = Shared::open();
    let other = db.clone();
    db.put("k", "v");
    assert_eq!(other.get("k").as_deref(), Some(b"v".as_ref()));
}

#[test]
fn the_engine_can_be_sent_and_shared() {
    fn assert_send_sync<T: Send + Sync>() {}
    assert_send_sync::<LsmEngine>();
}
