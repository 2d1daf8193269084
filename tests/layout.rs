use no_dup::board::rank_counts;
use no_dup::keys::{MessageKey, StoreKind, UserKey};
use no_dup::phash::{hamming_distance, perceptual_hash};
use no_dup::records::{ImageValue, MessageInfo, TopUserValue};
use no_dup::workflow::{image_identity, pick_photo};

#[test]
fn keys_are_deterministic() {
    let k = MessageKey { chat_id: "42".to_string(), url: "https://x/y".to_string() };
    let a = k.to_bytes();
    let b = MessageKey { chat_id: "42".to_string(), url: "https://x/y".to_string() }.to_bytes();
    assert_eq!(a, b);
    assert_eq!(a, b"msg/3432/https://x/y".to_vec());
}

#[test]
fn keys_keep_scopes_apart() {
    let a = MessageKey { chat_id: "4".to_string(), url: "2/a".to_string() }.to_bytes();
    let b = MessageKey { chat_id: "4/2".to_string(), url: "a".to_string() }.to_bytes();
    assert_ne!(a, b);
    let p = no_dup::keys::scope_prefix_bytes(StoreKind::Messages, "4");
    assert!(a.starts_with(&p));
    assert!(!b.starts_with(&p));
}

#[test]
fn user_key_layout() {
    let k = UserKey { chat_id: "-1".to_string(), user_id: 258 }.to_bytes();
    let mut want = b"usr/2d31/".to_vec();
    want.extend_from_slice(&[0, 0, 0, 0, 0, 0, 1, 2]);
    assert_eq!(k, want);
}

#[test]
fn hamming_distance_counts_bits() {
    assert_eq!(hamming_distance(&[0xff], &[0x00]), 8);
    assert_eq!(hamming_distance(&[0b1010], &[0b0101]), 4);
    assert_eq!(hamming_distance(&[1, 2, 3], &[1, 2, 3]), 0);
    assert_eq!(hamming_distance(&[], &[]), 0);
    assert_eq!(hamming_distance(&[0x80, 0x01], &[0x00, 0x03]), 2);
}

fn same_labels(n: usize) -> Vec<Vec<u8>> {
    vec![Vec::new(); n]
}

fn labels(names: &[&str]) -> Vec<Vec<u8>> {
    names.iter().map(|n| n.as_bytes().to_vec()).collect()
}

#[test]
fn leaderboard_tie_extension_and_hard_cap() {
    let counts = vec![10, 10, 9, 5, 5, 5];
    let l = same_labels(6);
    assert_eq!(rank_counts(&counts, &l, 2, 4), vec![0, 1]);
    assert_eq!(rank_counts(&counts, &l, 1, 4), vec![0, 1]);
    assert_eq!(rank_counts(&counts, &l, 4, 4), vec![0, 1, 2, 3]);
    assert_eq!(rank_counts(&counts, &l, 4, 6), vec![0, 1, 2, 3, 4, 5]);
    assert_eq!(rank_counts(&counts, &l, 3, 6), vec![0, 1, 2]);
    assert_eq!(rank_counts(&counts, &l, 2, 1), vec![0]);
}

#[test]
fn leaderboard_scenario_with_labels() {
    let counts = vec![10, 10, 9, 5, 5, 5];
    let l = labels(&["a", "b", "c", "d", "e", "f"]);
    let r = rank_counts(&counts, &l, 2, 4);
    assert_eq!(r, vec![1, 0]);
    assert!(r.len() <= 4);
    assert_eq!(rank_counts(&counts, &l, 1, 4), vec![1, 0]);
    assert_eq!(rank_counts(&counts, &l, 4, 4), vec![1, 0, 2, 5]);
}

#[test]
fn leaderboard_ties_by_label_descending() {
    let counts = vec![5, 7, 5, 5];
    let l = labels(&["bob", "x", "carol", "alice"]);
    assert_eq!(rank_counts(&counts, &l, 10, 10), vec![1, 2, 0, 3]);
    let l2 = labels(&["ab", "z", "a", "abc"]);
    assert_eq!(rank_counts(&counts, &l2, 10, 10), vec![1, 3, 0, 2]);
}

#[test]
fn leaderboard_orders_descending() {
    assert_eq!(rank_counts(&vec![1, 7, 3, 7], &same_labels(4), 10, 10), vec![1, 3, 2, 0]);
    assert_eq!(rank_counts(&vec![], &same_labels(0), 10, 10), Vec::<usize>::new());
    assert_eq!(rank_counts(&vec![5], &same_labels(1), 0, 10), Vec::<usize>::new());
}

#[test]
fn records_round_trip() {
    let m = MessageInfo {
        url: "https://x/ü".to_string(),
        count: 300,
        link: Some("https://t.me/c/1/2/".to_string()),
        user_id: Some(-5),
    };
    let back = MessageInfo::from_bytes(&m.to_bytes()).unwrap();
    assert_eq!(back.url, m.url);
    assert_eq!(back.count, 300);
    assert_eq!(back.link, m.link);
    assert_eq!(back.user_id, Some(-5));
    let n = MessageInfo { url: String::new(), count: 1, link: None, user_id: None };
    let back = MessageInfo::from_bytes(&n.to_bytes()).unwrap();
    assert_eq!(back.link, None);
    assert_eq!(back.user_id, None);
    let i = ImageValue { hash: "h".to_string(), url: "u".to_string(), timestamp: -3 };
    let back = ImageValue::from_bytes(&i.to_bytes()).unwrap();
    assert_eq!((back.hash, back.url, back.timestamp), ("h".to_string(), "u".to_string(), -3));
    let u = TopUserValue { username: "名".to_string(), count: 2 };
    let back = TopUserValue::from_bytes(&u.to_bytes()).unwrap();
    assert_eq!((back.username, back.count), ("名".to_string(), 2));
}

#[test]
fn malformed_records_do_not_decode() {
    assert!(MessageInfo::from_bytes(&[]).is_none());
    assert!(MessageInfo::from_bytes(&[0, 0, 0]).is_none());
    let u = TopUserValue { username: "a".to_string(), count: 2 }.to_bytes();
    assert!(MessageInfo::from_bytes(&u).is_none());
    let mut bad = TopUserValue { username: "ab".to_string(), count: 2 }.to_bytes();
    bad[8] = 0xff;
    assert!(TopUserValue::from_bytes(&bad).is_none());
}

#[test]
fn photo_choice() {
    assert_eq!(pick_photo(&vec![90, 320, 800, 1280]), Some(1));
    assert_eq!(pick_photo(&vec![800, 1280]), Some(0));
    assert_eq!(pick_photo(&vec![90, 600, 500]), Some(1));
    assert_eq!(pick_photo(&vec![]), None);
}

#[test]
fn image_identity_prefixes_the_hash() {
    assert_eq!(image_identity("abc"), "https://img.telegram.com/abc");
}

#[test]
fn perceptual_hash_of_pixels() {
    let pixels: Vec<u8> = (0..16u8).map(|i| i * 16).collect();
    let h = perceptual_hash(2, 2, &pixels).unwrap();
    assert!(!h.is_empty());
    assert_eq!(perceptual_hash(2, 2, &pixels).unwrap(), h);
    assert!(perceptual_hash(2, 2, &pixels[..15]).is_none());
    assert!(perceptual_hash(0, 2, &pixels).is_none());
    assert!(perceptual_hash(2, 0, &pixels).is_none());
}
