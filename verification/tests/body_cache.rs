use dms_email_client::body_cache::{
    body_cache_path, is_body_name, prune_body_cache, sanitize_component, CachedFile,
};

#[test]
fn components_are_made_safe() {
    assert_eq!(sanitize_component("QQ Mail"), "QQ_Mail");
    assert_eq!(sanitize_component("[Gmail]/Spam"), "_Gmail__Spam");
    assert_eq!(sanitize_component("../..\\x\u{0}"), "______x_");
    assert_eq!(sanitize_component("垃圾邮件9é"), "垃圾邮件9é");
    assert_eq!(sanitize_component(""), "");
}

#[test]
fn bodies_have_their_place() {
    assert_eq!(
        body_cache_path("/c/dms", "QQ Mail", "[Gmail]/Spam", "42"),
        "/c/dms/QQ_Mail/_Gmail__Spam/42.v3.json"
    );
    assert_eq!(body_cache_path("/c/", "../a", "/etc", "1"), "/c/___a/_etc/1.v3.json");
}

#[test]
fn only_json_files_are_bodies() {
    for name in ["1.v3.json", "a.json"] {
        assert!(is_body_name(name), "{name}");
    }
    for name in [".json", "json", "a.jso", "a.json.tmp", "a.JSON", ""] {
        assert!(!is_body_name(name), "{name}");
    }
}

fn file(path: &str, modified: i128) -> CachedFile {
    CachedFile { path: path.to_string(), modified }
}

fn gone(limit: usize) -> Vec<String> {
    let files = vec![file("a", 30), file("b", 10), file("c", 20), file("d", 10), file("e", -1)];
    prune_body_cache(files, limit).into_iter().map(|f| f.path).collect()
}

#[test]
fn the_oldest_bodies_go() {
    assert_eq!(gone(5), Vec::<String>::new());
    assert_eq!(gone(9), Vec::<String>::new());
    assert_eq!(gone(4), vec!["e"]);
    assert_eq!(gone(2), vec!["e", "b", "d"]);
    assert_eq!(gone(0), vec!["e", "b", "d", "c", "a"]);
}
