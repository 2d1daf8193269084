use no_dup::exact::KVStore;
use no_dup::config::Config;
use no_dup::keys::{MessageKey, UserKey};
use no_dup::records::{MessageInfo, TopUserValue};
use no_dup::store::{MyDB, StoreError};
use no_dup::workflow::{count_repeat, record_sighting};

fn open_store(name: &str) -> (sled::Db, MyDB) {
    let db = sled::Config::new().temporary(true).open().unwrap();
    let tree = db.open_tree(name).unwrap();
    (db, MyDB::new(tree))
}

fn key(scope: &str, url: &str) -> MessageKey {
    MessageKey { chat_id: scope.to_string(), url: url.to_string() }
}

#[test]
fn repeats_count_up_without_gaps() {
    let (_db, mut store) = open_store("m");
    let k = key("42", "https://x/y");
    let first = store.record_first(&k, Some("https://t.me/g/1/".to_string()), Some(7)).unwrap();
    assert_eq!(first.count, 1);
    for n in 2..6u64 {
        let r = store.record_repeat(&k).unwrap();
        assert_eq!(r.count, n);
        assert_eq!(r.link.as_deref(), Some("https://t.me/g/1/"));
        assert_eq!(r.user_id, Some(7));
    }
    assert_eq!(store.lookup(&k).unwrap().unwrap().count, 5);
}

#[test]
fn lookup_of_unseen_content_is_none() {
    let (_db, store) = open_store("m");
    assert!(store.lookup(&key("42", "https://x/y")).unwrap().is_none());
}

#[test]
fn record_first_twice_is_refused() {
    let (_db, mut store) = open_store("m");
    let k = key("42", "a");
    store.record_first(&k, None, None).unwrap();
    let r = store.record_first(&k, Some("l".to_string()), Some(1));
    assert!(matches!(r, Err(StoreError::AlreadyPresent)));
    let info = store.lookup(&k).unwrap().unwrap();
    assert_eq!(info.count, 1);
    assert_eq!(info.link, None);
}

#[test]
fn repeat_of_absent_content_is_refused() {
    let (_db, mut store) = open_store("m");
    assert!(matches!(store.record_repeat(&key("42", "a")), Err(StoreError::Absent)));
}

#[test]
fn corrupt_record_is_a_decode_error() {
    let (_db, mut store) = open_store("m");
    let k = key("42", "a");
    store.put(&k.to_bytes(), b"garbage").unwrap();
    assert!(matches!(store.lookup(&k), Err(StoreError::Decode)));
    assert!(matches!(store.record_repeat(&k), Err(StoreError::Decode)));
}

#[test]
fn full_counter_is_an_overflow() {
    let (_db, mut store) = open_store("m");
    let k = key("42", "a");
    let info = MessageInfo { url: "a".to_string(), count: u64::MAX, link: None, user_id: None };
    store.put(&k.to_bytes(), &info.to_bytes()).unwrap();
    assert!(matches!(store.record_repeat(&k), Err(StoreError::Overflow)));
    assert_eq!(store.lookup(&k).unwrap().unwrap().count, u64::MAX);
}

#[test]
fn scopes_keep_separate_records() {
    let (_db, mut store) = open_store("m");
    store.record_first(&key("42", "a"), None, None).unwrap();
    assert!(store.lookup(&key("43", "a")).unwrap().is_none());
    assert!(store.lookup(&key("4", "2a")).unwrap().is_none());
}

#[test]
fn link_posted_by_a_a_b() {
    let (_db, mut messages) = open_store("m");
    let (_db2, mut users) = open_store("u");
    let k = key("42", "https://x/y");
    let a = || Some((1i64, "A".to_string()));
    let b = || Some((2i64, "B".to_string()));
    let s1 = record_sighting(&mut messages, &mut users, &k, None, a()).unwrap();
    assert!(!s1.repeat);
    assert!(users.user_count("42", 1).unwrap().is_none());
    let s2 = record_sighting(&mut messages, &mut users, &k, None, a()).unwrap();
    assert!(s2.repeat);
    let s3 = record_sighting(&mut messages, &mut users, &k, None, b()).unwrap();
    assert!(s3.repeat);
    assert_eq!(s3.info.count, 3);
    assert_eq!(messages.lookup(&k).unwrap().unwrap().count, 3);
    assert_eq!(users.user_count("42", 1).unwrap().unwrap().count, 1);
    assert_eq!(users.user_count("42", 2).unwrap().unwrap().count, 1);
    assert_eq!(s3.info.user_id, Some(1));
}

#[test]
fn user_counter_counts_and_renames() {
    let (_db, mut users) = open_store("u");
    assert_eq!(users.increment_user("42", 9, "Old").unwrap(), 1);
    assert_eq!(users.increment_user("42", 9, "New").unwrap(), 2);
    let v = users.user_count("42", 9).unwrap().unwrap();
    assert_eq!(v.count, 2);
    assert_eq!(v.username, "New");
}

#[test]
fn user_counter_decode_and_overflow_errors() {
    let (_db, mut users) = open_store("u");
    let k = UserKey { chat_id: "42".to_string(), user_id: 3 };
    users.put(&k.to_bytes(), b"x").unwrap();
    assert!(matches!(users.increment_user("42", 3, "n"), Err(StoreError::Decode)));
    let full = TopUserValue { username: "n".to_string(), count: u64::MAX };
    users.put(&k.to_bytes(), &full.to_bytes()).unwrap();
    assert!(matches!(users.increment_user("42", 3, "n"), Err(StoreError::Overflow)));
}

#[test]
fn top_users_ranks_by_count() {
    let (_db, mut users) = open_store("u");
    for (id, n) in [(1i64, 3u64), (2, 5), (3, 1)] {
        for _ in 0..n {
            users.increment_user("42", id, &format!("user{}", id)).unwrap();
        }
    }
    users.increment_user("other", 4, "elsewhere").unwrap();
    let cfg = Config { max_len: 2, last_len_hard: 4, ..Config::standard() };
    let top = users.top_users("42", &cfg).unwrap();
    let rows: Vec<(String, u64)> = top.into_iter().map(|u| (u.username, u.count)).collect();
    assert_eq!(rows, vec![("user2".to_string(), 5), ("user1".to_string(), 3)]);
}

#[test]
fn top_topics_ranks_by_count() {
    let (_db, mut messages) = open_store("m");
    messages.record_first(&key("42", "a"), None, None).unwrap();
    messages.record_first(&key("42", "b"), Some("https://t.me/c/1/2/".to_string()), None).unwrap();
    messages.record_repeat(&key("42", "b")).unwrap();
    let top = messages.top_topics("42", &Config::standard()).unwrap();
    assert_eq!(top.len(), 2);
    assert_eq!(top[0].url, "b");
    assert_eq!(top[0].count, 2);
    assert_eq!(top[1].url, "a");
}

#[test]
fn kv_store_save_find_delete() {
    let (_db, mut store) = open_store("m");
    let k = key("42", "a");
    let info = MessageInfo { url: "a".to_string(), count: 4, link: None, user_id: Some(3) };
    assert!(KVStore::save(&mut store, &k, &info));
    let got = KVStore::find(&store, &k).unwrap();
    assert_eq!(got.count, 4);
    assert_eq!(got.user_id, Some(3));
    assert!(KVStore::delete(&mut store, &k));
    assert!(KVStore::find(&store, &k).is_none());
}

#[test]
fn record_post_then_count_repeat() {
    let (_db, mut messages) = open_store("m");
    let (_db2, mut users) = open_store("u");
    let k = key("42", "z");
    let who = Some((5i64, "E".to_string()));
    let first = messages.record_post(&k, None, Some(5)).unwrap();
    assert!(!first.repeat);
    count_repeat(&mut users, "42", first.repeat, &who).unwrap();
    assert!(users.user_count("42", 5).unwrap().is_none());
    let again = messages.record_post(&k, None, Some(5)).unwrap();
    assert!(again.repeat);
    assert_eq!(again.info.count, 2);
    count_repeat(&mut users, "42", again.repeat, &who).unwrap();
    assert_eq!(users.user_count("42", 5).unwrap().unwrap().count, 1);
    count_repeat(&mut users, "42", true, &None).unwrap();
    assert_eq!(users.user_count("42", 5).unwrap().unwrap().count, 1);
}

#[test]
fn top_users_ties_go_by_name() {
    let (_db, mut users) = open_store("u");
    users.increment_user("42", 1, "anna").unwrap();
    users.increment_user("42", 2, "zoe").unwrap();
    users.increment_user("42", 3, "mia").unwrap();
    let top = users.top_users("42", &Config::standard()).unwrap();
    let names: Vec<String> = top.into_iter().map(|u| u.username).collect();
    assert_eq!(names, vec!["zoe", "mia", "anna"]);
}
