use no_dup::config::Config;
use no_dup::keys::{ImageKey, StoreKind};
use no_dup::records::ImageValue;
use no_dup::store::{MyDB, StoreError};

fn open_store() -> (sled::Db, MyDB) {
    let db = sled::Config::new().temporary(true).open().unwrap();
    let tree = db.open_tree("images").unwrap();
    (db, MyDB::new(tree))
}

fn live(ttl: i64) -> Config {
    Config { similarity_threshold: 4, ttl_seconds: ttl, max_len: 20, last_len_hard: 30, dry_run: false }
}

fn stored_entry(store: &MyDB, scope: &str, hash: &str) -> Option<ImageValue> {
    let key = ImageKey { chat_id: scope.to_string(), hash_str: hash.to_string() };
    store.get(&key.to_bytes()).unwrap().map(|v| ImageValue::from_bytes(&v).unwrap())
}

// eight zero bytes, and the same with two bits set
const H1: &str = "AAAAAAAAAAA=";
const H1_TWO_BITS: &str = "AwAAAAAAAAA=";
// eight bytes with every bit set
const FAR: &str = "//////////8=";

#[test]
fn empty_index_registers_the_query() {
    let (_db, mut store) = open_store();
    let m = store.find_or_register_at("42", H1, "id1", 1000, &live(100)).unwrap();
    assert!(!m.hit);
    assert_eq!(m.url, "id1");
    assert!(m.stale.is_empty());
    let e = stored_entry(&store, "42", H1).unwrap();
    assert_eq!(e.url, "id1");
    assert_eq!(e.hash, H1);
    assert_eq!(e.timestamp, 1000);
}

#[test]
fn near_hash_matches_and_touches() {
    let (_db, mut store) = open_store();
    store.find_or_register_at("42", H1, "id1", 1000, &live(100)).unwrap();
    let m = store.find_or_register_at("42", H1_TWO_BITS, "id2", 1050, &live(100)).unwrap();
    assert!(m.hit);
    assert_eq!(m.url, "id1");
    assert_eq!(stored_entry(&store, "42", H1).unwrap().timestamp, 1050);
    assert!(stored_entry(&store, "42", H1_TWO_BITS).is_none());
}

#[test]
fn distance_at_threshold_is_no_match() {
    let (_db, mut store) = open_store();
    store.find_or_register_at("42", H1, "id1", 1000, &live(100)).unwrap();
    // 0x0f: four bits differ, equal to the threshold
    let m = store.find_or_register_at("42", "DwAAAAAAAAA=", "id3", 1010, &live(100)).unwrap();
    assert!(!m.hit);
    assert_eq!(m.url, "id3");
    let old = stored_entry(&store, "42", H1).unwrap();
    assert_eq!(old.timestamp, 1000);
    assert_eq!(old.url, "id1");
    assert_eq!(stored_entry(&store, "42", "DwAAAAAAAAA=").unwrap().url, "id3");
}

#[test]
fn scopes_do_not_match_each_other() {
    let (_db, mut store) = open_store();
    store.find_or_register_at("42", H1, "id1", 1000, &live(100)).unwrap();
    let m = store.find_or_register_at("4", H1, "other", 1000, &live(100)).unwrap();
    assert!(!m.hit);
    assert_eq!(m.url, "other");
}

#[test]
fn expired_entry_is_evicted_in_live_mode() {
    let (_db, mut store) = open_store();
    store.find_or_register_at("42", H1, "id1", 0, &live(10)).unwrap();
    let m = store.find_or_register_at("42", FAR, "id2", 11, &live(10)).unwrap();
    assert!(!m.hit);
    assert_eq!(m.url, "id2");
    assert_eq!(m.stale.len(), 1);
    let key = ImageKey { chat_id: "42".to_string(), hash_str: H1.to_string() };
    assert_eq!(m.stale[0], key.to_bytes());
    assert!(stored_entry(&store, "42", H1).is_none());
    // later scans no longer meet it
    let later = store.find_or_register_at("42", H1_TWO_BITS, "id3", 12, &live(10)).unwrap();
    assert!(!later.hit);
    assert!(later.stale.is_empty());
    let prefix = no_dup::keys::scope_prefix_bytes(StoreKind::Images, "42");
    let left = store.scan_prefix(&prefix).unwrap();
    assert_eq!(left.len(), 2);
}

#[test]
fn expired_entry_is_kept_in_dry_run() {
    let (_db, mut store) = open_store();
    let mut cfg = live(10);
    cfg.dry_run = true;
    store.find_or_register_at("42", H1, "id1", 0, &cfg).unwrap();
    let m = store.find_or_register_at("42", FAR, "id2", 11, &cfg).unwrap();
    assert_eq!(m.stale.len(), 1);
    let kept = stored_entry(&store, "42", H1).unwrap();
    assert_eq!(kept.timestamp, 0);
}

#[test]
fn expired_entry_never_wins() {
    let (_db, mut store) = open_store();
    store.find_or_register_at("42", H1, "id1", 0, &live(10)).unwrap();
    let m = store.find_or_register_at("42", H1_TWO_BITS, "id2", 11, &live(10)).unwrap();
    assert!(!m.hit);
    assert_eq!(m.url, "id2");
}

#[test]
fn entry_at_exactly_ttl_is_live() {
    let (_db, mut store) = open_store();
    store.find_or_register_at("42", H1, "id1", 0, &live(10)).unwrap();
    let m = store.find_or_register_at("42", H1_TWO_BITS, "id2", 10, &live(10)).unwrap();
    assert!(m.hit);
    assert_eq!(m.url, "id1");
}

#[test]
fn tie_goes_to_the_latest_touch() {
    let (_db, mut store) = open_store();
    // two entries one bit away from the query, on either side
    store.find_or_register_at("42", "AQAAAAAAAAA=", "older", 100, &live(1000)).unwrap();
    let cfg0 = Config { similarity_threshold: 0, ..live(1000) };
    store.find_or_register_at("42", "AAEAAAAAAAA=", "newer", 200, &cfg0).unwrap();
    let m = store.find_or_register_at("42", H1, "q", 300, &live(1000)).unwrap();
    assert!(m.hit);
    assert_eq!(m.url, "newer");
}

#[test]
fn undecodable_query_hash_is_refused() {
    let (_db, mut store) = open_store();
    let r = store.find_or_register_at("42", "not base64 !!", "id", 0, &live(10));
    assert!(matches!(r, Err(StoreError::HashDecode)));
    let prefix = no_dup::keys::scope_prefix_bytes(StoreKind::Images, "42");
    assert!(store.scan_prefix(&prefix).unwrap().is_empty());
}

#[test]
fn corrupt_entry_is_skipped() {
    let (_db, mut store) = open_store();
    let key = ImageKey { chat_id: "42".to_string(), hash_str: "zzz".to_string() };
    store.put(&key.to_bytes(), &[1, 2, 3]).unwrap();
    let m = store.find_or_register_at("42", H1, "id1", 0, &live(10)).unwrap();
    assert!(!m.hit);
    assert_eq!(m.url, "id1");
    assert_eq!(store.get(&key.to_bytes()).unwrap(), Some(vec![1, 2, 3]));
}


#[test]
fn all_expired_are_evicted_and_the_query_registered() {
    let (_db, mut store) = open_store();
    store.find_or_register_at("42", H1, "id1", 0, &live(10)).unwrap();
    store.find_or_register_at("42", FAR, "id2", 1, &live(10)).unwrap();
    let m = store.find_or_register_at("42", H1_TWO_BITS, "id3", 100, &live(10)).unwrap();
    assert!(!m.hit);
    assert_eq!(m.url, "id3");
    assert_eq!(m.stale.len(), 2);
    let prefix = no_dup::keys::scope_prefix_bytes(StoreKind::Images, "42");
    let left = store.scan_prefix(&prefix).unwrap();
    assert_eq!(left.len(), 1);
    assert_eq!(stored_entry(&store, "42", H1_TWO_BITS).unwrap().timestamp, 100);
}

#[test]
fn re_registering_an_expired_hash_keeps_the_new_entry() {
    let (_db, mut store) = open_store();
    store.find_or_register_at("42", H1, "id1", 0, &live(10)).unwrap();
    let m = store.find_or_register_at("42", H1, "id2", 50, &live(10)).unwrap();
    assert!(!m.hit);
    let e = stored_entry(&store, "42", H1).unwrap();
    assert_eq!(e.url, "id2");
    assert_eq!(e.timestamp, 50);
}
