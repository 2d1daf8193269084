use no_dup::commands::{
    after_probe, allows_delete, get_chat_id, parse_admins, parse_i64, reply_to_bot, Cleanup,
};
use no_dup::config::Config;
use no_dup::keys::ImageKey;
use no_dup::links::{filter_url, parse_link};
use no_dup::store::MyDB;

#[test]
fn parse_link_normalises() {
    let l = parse_link("HTTPS://Example.COM").unwrap();
    assert_eq!(l.href, "https://example.com/");
    assert_eq!(l.domain.as_deref(), Some("example.com"));
    assert!(parse_link("not a url").is_none());
}

#[test]
fn filtered_links() {
    let chat = "123".to_string();
    for s in [
        "https://github.com/rust-lang/rust",
        "https://stackoverflow.com/q/1",
        "https://t.me/joinchat/abc",
        "https://t.me/c/123/45",
    ] {
        assert!(filter_url(parse_link(s), &chat).is_none(), "{}", s);
    }
    for s in ["https://t.me/c/999/45", "https://t.me/somechannel/7", "https://example.com/a?b=1"] {
        let kept = filter_url(parse_link(s), &chat).unwrap();
        assert_eq!(kept.href, s);
    }
    assert!(filter_url(None, &chat).is_none());
}

#[test]
fn chat_ids_lose_the_supergroup_prefix() {
    assert_eq!(get_chat_id("-1001234"), "1234");
    assert_eq!(get_chat_id("-42"), "-42");
    assert_eq!(get_chat_id("-100"), "");
    assert_eq!(get_chat_id("77"), "77");
}

#[test]
fn only_admins_delete() {
    let admins = vec![1, 2];
    assert!(allows_delete(&admins, Some(2)));
    assert!(!allows_delete(&admins, Some(3)));
    assert!(!allows_delete(&admins, None));
    assert!(!allows_delete(&vec![], Some(0)));
}

#[test]
fn replies_to_the_bot() {
    assert!(reply_to_bot(Some(&"no_dup_bot".to_string())));
    assert!(!reply_to_bot(Some(&"someone".to_string())));
    assert!(!reply_to_bot(None));
}

#[test]
fn probe_outcome_decides_cleanup() {
    assert_eq!(after_probe(true), Cleanup::DeleteProbe);
    assert_eq!(after_probe(false), Cleanup::DeleteNotice);
}

#[test]
fn sweep_retires_only_expired_entries() {
    let db = sled::Config::new().temporary(true).open().unwrap();
    let mut store = MyDB::new(db.open_tree("images").unwrap());
    let cfg = Config { ttl_seconds: 10, dry_run: true, ..Config::standard() };
    store.find_or_register_at("42", "AAAAAAAAAAA=", "old", 0, &cfg).unwrap();
    store.find_or_register_at("42", "//////////8=", "new", 8, &cfg).unwrap();
    store.find_or_register_at("7", "AAAAAAAAAAA=", "other scope", 0, &cfg).unwrap();
    let gone = store.retire_expired("42", 15, 10).unwrap();
    let old_key = ImageKey { chat_id: "42".to_string(), hash_str: "AAAAAAAAAAA=".to_string() }.to_bytes();
    assert_eq!(gone, vec![old_key.clone()]);
    assert!(store.get(&old_key).unwrap().is_none());
    let new_key = ImageKey { chat_id: "42".to_string(), hash_str: "//////////8=".to_string() }.to_bytes();
    assert!(store.get(&new_key).unwrap().is_some());
    let other = ImageKey { chat_id: "7".to_string(), hash_str: "AAAAAAAAAAA=".to_string() }.to_bytes();
    assert!(store.get(&other).unwrap().is_some());
}

#[test]
fn admin_list_parsing() {
    assert_eq!(parse_admins("12:34"), vec![12, 34]);
    assert_eq!(parse_admins("0"), vec![0]);
    assert_eq!(parse_admins("x:-5:"), vec![0, -5, 0]);
    assert_eq!(parse_admins(""), vec![0]);
}

#[test]
fn decimal_parsing_matches_std() {
    for t in [
        "0", "42", "-42", "+7", "-0", "007", "9223372036854775807", "-9223372036854775808",
        "9223372036854775808", "-9223372036854775809", "99999999999999999999999", "", "-", "+",
        "1a", " 1", "1 ", "--1", "+-1", "١٢",
    ] {
        assert_eq!(parse_i64(t), t.parse::<i64>().ok(), "{:?}", t);
    }
}
