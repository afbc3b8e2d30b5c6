// What requests are answered.

use lsmdb::error::EngineError;
use lsmdb::http_api::{
    choose_family, delete_key, get_key, get_key_at, pairs_as_text, put_key, scan_prefix,
    scan_prefix_at, scan_range, scan_range_at, snapshot, snapshot_at, Refusal, STATUS_OK,
};
use lsmdb::storage::Storage;
use lsmdb::LsmEngine;

fn open() -> LsmEngine {
    let cfs = vec!["default".to_string(), "meta".to_string()];
    LsmEngine::open_with_cfs(&Storage::new(), &cfs).unwrap()
}

fn s(text: &str) -> String {
    text.to_string()
}

#[test]
fn a_value_that_was_put_is_got() {
    let mut db = open();
    put_key(&mut db, None, s("k"), s("v\u{e9}")).ok().unwrap();
    let pair = get_key(&db, None, s("k")).ok().unwrap();
    assert_eq!((pair.key.as_str(), pair.value.as_str()), ("k", "v\u{e9}"));
    assert!(matches!(get_key(&db, Some(s("meta")), s("k")), Err(Refusal::NoValue)));
    delete_key(&mut db, None, s("k")).ok().unwrap();
    assert!(matches!(get_key(&db, None, s("k")), Err(Refusal::NoValue)));
}

#[test]
fn statuses() {
    assert_eq!(STATUS_OK, 200);
    assert_eq!(Refusal::NoValue.status(), 404);
    assert_eq!(Refusal::Failed(EngineError::NotFound).status(), 500);
}

#[test]
fn unknown_families_are_refused() {
    let mut db = open();
    let nope = || Some(s("nope"));
    let failed = |x: Refusal| matches!(x, Refusal::Failed(EngineError::NotFound));
    assert!(failed(get_key(&db, nope(), s("k")).err().unwrap()));
    assert!(failed(put_key(&mut db, nope(), s("k"), s("v")).err().unwrap()));
    assert!(failed(delete_key(&mut db, nope(), s("k")).err().unwrap()));
    assert!(failed(scan_range(&db, nope(), None, Some(s("z"))).err().unwrap()));
    assert!(failed(scan_prefix(&db, nope(), s("k")).err().unwrap()));
    let none = LsmEngine::open_with_cfs(&Storage::new(), &vec![s("other")]).unwrap();
    assert!(failed(snapshot(&none).err().unwrap()));
}

#[test]
fn ranges_and_prefixes_are_listed_in_order() {
    let mut db = open();
    for k in ["b:1", "a:2", "a:1", "c"] {
        put_key(&mut db, None, s(k), s("v")).ok().unwrap();
    }
    let keys = |v: Vec<lsmdb::http_api::KvPair>| -> Vec<String> {
        v.into_iter().map(|p| p.key).collect()
    };
    assert_eq!(
        keys(scan_range(&db, None, Some(s("a:2")), Some(s("c"))).ok().unwrap()),
        ["a:2", "b:1"]
    );
    assert_eq!(keys(scan_range(&db, None, None, Some(s("b"))).ok().unwrap()), ["a:1", "a:2"]);
    // without an upper bound nothing lies below it
    assert!(scan_range(&db, None, Some(s("a")), None).ok().unwrap().is_empty());
    assert_eq!(keys(scan_prefix(&db, None, s("a:")).ok().unwrap()), ["a:1", "a:2"]);
}

#[test]
fn a_snapshot_has_its_number_and_pairs() {
    let mut db = open();
    put_key(&mut db, None, s("b"), s("2")).ok().unwrap();
    put_key(&mut db, None, s("a"), s("1")).ok().unwrap();
    put_key(&mut db, Some(s("meta")), s("m"), s("3")).ok().unwrap();
    let snap = snapshot(&db).ok().unwrap();
    assert_eq!(snap.seq, 3);
    let text: Vec<(String, String)> = snap.entries.into_iter().map(|p| (p.key, p.value)).collect();
    assert_eq!(text, [(s("a"), s("1")), (s("b"), s("2"))]);
}

#[test]
fn bytes_that_are_no_text_are_replaced() {
    let pairs = pairs_as_text(&vec![(vec![b'a', 0xff], vec![0xc3, 0xa9, 0xc3])]);
    assert_eq!(pairs[0].key, "a\u{fffd}");
    assert_eq!(pairs[0].value, "\u{e9}\u{fffd}");
}

#[test]
fn expired_values_are_not_shown() {
    let mut db = open();
    db.put_until_cf("default", b"k".to_vec(), b"v".to_vec(), 50).unwrap();
    assert!(get_key_at(&db, None, s("k"), 49).is_ok());
    assert!(matches!(get_key_at(&db, None, s("k"), 50), Err(Refusal::NoValue)));
    assert_eq!(scan_range_at(&db, None, None, Some(s("z")), 49).ok().unwrap().len(), 1);
    assert_eq!(scan_range_at(&db, None, None, Some(s("z")), 50).ok().unwrap().len(), 0);
    assert_eq!(scan_prefix_at(&db, None, s("k"), 50).ok().unwrap().len(), 0);
    assert_eq!(snapshot_at(&db, 50).ok().unwrap().entries.len(), 0);
}

#[test]
fn requests_without_a_family_are_for_the_default_one() {
    assert_eq!(choose_family(None), "default");
    assert_eq!(choose_family(Some(s("meta"))), "meta");
}
