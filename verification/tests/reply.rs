use dms_email_client::reply::{
    json_body, json_done, json_err, json_marked, json_no_state, json_translation,
};

#[test]
fn replies_are_json_objects() {
    assert_eq!(json_done(), "{\"ok\":true}");
    assert_eq!(json_err("账户不存在"), "{\"error\":\"账户不存在\",\"ok\":false}");
    assert_eq!(json_err("a\"b\n"), "{\"error\":\"a\\\"b\\n\",\"ok\":false}");
    assert_eq!(
        json_no_state("Daemon not running"),
        "{\"error\":\"Daemon not running\",\"last_update\":\"\",\"unread_mails\":[]}"
    );
    assert_eq!(json_translation("<b>"), "{\"body\":\"<b>\",\"ok\":true}");
    assert_eq!(
        json_body("f", "s", "d", "INBOX", "h"),
        "{\"body\":\"h\",\"date\":\"d\",\"folder\":\"INBOX\",\"from\":\"f\",\"ok\":true,\
\"subject\":\"s\"}"
    );
}

#[test]
fn marks_are_counted() {
    assert_eq!(json_marked(3, &[]), "{\"marked\":3,\"ok\":true}");
    let errors = vec!["a: x".chars().collect::<Vec<char>>(), "b: y".chars().collect()];
    assert_eq!(
        json_marked(0, &errors),
        "{\"error\":\"a: x; b: y\",\"marked\":0,\"ok\":false}"
    );
}
