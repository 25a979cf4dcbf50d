use dms_email_client::cache::{TransCache, TransKey};
use dms_email_client::commands::{trans_cache, translation_key};

#[test]
fn cache_hit_miss_and_eviction() {
    let mut c = TransCache::new(2);
    let k1: TransKey = ("a".into(), "INBOX".into(), 1, "eng_Latn".into(), "zho_Hans".into());
    let k2: TransKey = ("a".into(), "INBOX".into(), 2, "eng_Latn".into(), "zho_Hans".into());
    let k3: TransKey = ("a".into(), "INBOX".into(), 3, "eng_Latn".into(), "zho_Hans".into());
    assert_eq!(c.get(&k1), None);
    c.put(k1.clone(), "one".into());
    assert_eq!(c.get(&k1), Some("one".into()));
    c.put(k2.clone(), "two".into());
    c.put(k3.clone(), "three".into());
    assert_eq!(c.get(&k1), None, "k1 should be evicted");
    assert_eq!(c.get(&k3), Some("three".into()));
}

fn key(uid: u32, src: &str, tgt: &str) -> TransKey {
    ("a".into(), "INBOX".into(), uid, src.into(), tgt.into())
}

#[test]
fn putting_again_replaces_in_place() {
    let mut c = TransCache::new(2);
    c.put(key(1, "x", "y"), "one".into());
    c.put(key(2, "x", "y"), "two".into());
    c.put(key(1, "x", "y"), "uno".into());
    assert_eq!(c.get(&key(1, "x", "y")), Some("uno".into()));
    assert_eq!(c.get(&key(2, "x", "y")), Some("two".into()));
    c.put(key(3, "x", "y"), "three".into());
    assert_eq!(c.get(&key(1, "x", "y")), None);
    assert_eq!(c.get(&key(2, "x", "y")), Some("two".into()));
}

#[test]
fn a_cache_without_room_has_room_for_one() {
    let mut c = TransCache::new(0);
    c.put(key(1, "x", "y"), "one".into());
    assert_eq!(c.get(&key(1, "x", "y")), Some("one".into()));
    c.put(key(2, "x", "y"), "two".into());
    assert_eq!(c.get(&key(1, "x", "y")), None);
    assert_eq!(c.get(&key(2, "x", "y")), Some("two".into()));
}

#[test]
fn other_languages_are_other_keys() {
    let mut c = TransCache::new(9);
    c.put(key(1, "x", "y"), "one".into());
    assert_eq!(c.get(&key(1, "x", "z")), None);
    assert_eq!(c.get(&key(1, "z", "y")), None);
    assert_eq!(c.get(&key(2, "x", "y")), None);
}

#[test]
fn the_daemon_caches_two_hundred() {
    let mut c = trans_cache();
    for uid in 0..201 {
        let k = translation_key("a", "f", &uid.to_string(), "nllb", "auto", "t");
        c.put(k, uid.to_string());
    }
    assert_eq!(c.get(&translation_key("a", "f", "0", "nllb", "auto", "t")), None);
    assert_eq!(c.get(&translation_key("a", "f", "1", "nllb", "auto", "t")), Some("1".into()));
    assert_eq!(c.get(&translation_key("a", "f", "200", "nllb", "auto", "t")), Some("200".into()));
    assert_eq!(c.get(&translation_key("a", "f", "200", "google", "auto", "t")), None);
}
