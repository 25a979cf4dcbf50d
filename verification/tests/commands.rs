use dms_email_client::cache::EngineKey;
use dms_email_client::commands::{
    answer_body, answer_translation, choose_work, fetch_body, fetch_raw_message,
    fetch_translation, plan_translation, show_body, trans_cache, translation_key, Step, Work,
};
use dms_email_client::config::{Account, Config};
use dms_email_client::message::parse_message;

fn accounts() -> Vec<Account> {
    Config::first().accounts
}

fn value(json: &str) -> serde_json::Value {
    serde_json::from_str(json).unwrap()
}

fn text(json: &str, field: &str) -> String {
    value(json)[field].as_str().unwrap().to_string()
}

fn error(json: &str) -> String {
    assert_eq!(value(json)["ok"].as_bool(), Some(false));
    text(json, "error")
}

const RAW: &[u8] = b"From: \"Ann\" <ann@example.org>\r\nSubject: Hi & bye\r\n\
Content-Type: text/plain\r\n\r\nCode 482913 \"x\"\r\n";

#[test]
fn a_body_on_disk_is_the_reply() {
    assert_eq!(
        fetch_body(&accounts(), "nobody", Some("{}".to_string())),
        Step::Reply("{}".to_string())
    );
    assert_eq!(fetch_body(&accounts(), "QQ Mail", Some(String::new())), Step::Ask(0));
    assert_eq!(fetch_body(&accounts(), "QQ Mail", None), Step::Ask(0));
    match fetch_body(&accounts(), "nobody", None) {
        Step::Reply(r) => assert_eq!(error(&r), "账户不存在"),
        Step::Ask(_) => panic!("there is no such account"),
    }
}

#[test]
fn a_body_is_shown_with_its_header() {
    let (reply, store) = answer_body(Ok(vec![Some(RAW.to_vec())]), "INBOX");
    assert!(store);
    assert_eq!(value(&reply)["ok"].as_bool(), Some(true));
    assert_eq!(text(&reply, "from"), "Ann <ann@example.org>");
    assert_eq!(text(&reply, "subject"), "Hi & bye");
    assert_eq!(text(&reply, "date"), "");
    assert_eq!(text(&reply, "folder"), "INBOX");
    assert_eq!(text(&reply, "body"), "Code <a href=\"copy:482913\">482913 ⧉</a> \"x\"");
}

#[test]
fn a_stored_body_comes_back() {
    let (reply, store) = answer_body(Ok(vec![Some(RAW.to_vec())]), "INBOX");
    assert!(store);
    assert_eq!(fetch_body(&[], "QQ Mail", Some(reply.clone())), Step::Reply(reply));
    let (_, store) = answer_body(Ok(vec![]), "INBOX");
    assert!(!store);
    assert_eq!(fetch_body(&accounts(), "QQ Mail", None), Step::Ask(0));
}

#[test]
fn a_date_is_shown_as_given() {
    let m = parse_message(RAW).unwrap();
    let reply = show_body(&m, Some("2026-07-05 08:30:00".to_string()), "Spam");
    assert_eq!(text(&reply, "date"), "2026-07-05 08:30:00");
    assert_eq!(text(&reply, "folder"), "Spam");
}

#[test]
fn a_dated_mail_has_a_local_date() {
    let raw = b"Date: Sun, 5 Jul 2026 08:30:00 +0000\r\n\r\nx";
    let (reply, _) = answer_body(Ok(vec![Some(raw.to_vec())]), "INBOX");
    let date = text(&reply, "date");
    assert_eq!(date.len(), "2026-07-05 08:30:00".len());
    assert!(date.starts_with("2026-07-0"));
    assert_eq!(text(&reply, "subject"), "(无主题)");
    assert_eq!(text(&reply, "from"), "");
}

#[test]
fn what_went_wrong_is_said() {
    let cases = [
        (Err("timed out".to_string()), "timed out"),
        (Ok(vec![]), "未找到该邮件"),
        (Ok(vec![None]), "邮件无正文数据"),
        (Ok(vec![Some(Vec::new())]), "邮件解析失败"),
    ];
    for (answer, message) in cases {
        let (reply, store) = answer_body(answer.clone(), "INBOX");
        assert!(!store);
        assert_eq!(error(&reply), message);
        assert_eq!(fetch_raw_message(answer).err(), Some(message.to_string()));
    }
}

fn key(engine: &str) -> EngineKey {
    translation_key("QQ Mail", "INBOX", "7", engine, "auto", "zho_Hans")
}

#[test]
fn translations_are_made_once() {
    let mut cache = trans_cache();
    assert_eq!(fetch_translation(&accounts(), &cache, "QQ Mail", &key("nllb")), Step::Ask(0));
    let reply = answer_translation(&mut cache, key("nllb"), Ok("a < 1234".to_string()));
    assert_eq!(text(&reply, "body"), "a &lt; <a href=\"copy:1234\">1234 ⧉</a>");
    assert_eq!(
        fetch_translation(&accounts(), &cache, "QQ Mail", &key("nllb")),
        Step::Reply(reply)
    );
    assert_eq!(fetch_translation(&accounts(), &cache, "QQ Mail", &key("google")), Step::Ask(0));
}

#[test]
fn a_translation_needs_its_account() {
    let mut cache = trans_cache();
    let k = translation_key("gone", "INBOX", "7", "nllb", "auto", "zho_Hans");
    answer_translation(&mut cache, k.clone(), Ok("x".to_string()));
    match fetch_translation(&accounts(), &cache, "gone", &k) {
        Step::Reply(r) => assert_eq!(error(&r), "账户不存在"),
        Step::Ask(_) => panic!("there is no such account"),
    }
}

#[test]
fn a_failed_translation_is_not_cached() {
    let mut cache = trans_cache();
    let reply = answer_translation(&mut cache, key("nllb"), Err("no model".to_string()));
    assert_eq!(error(&reply), "no model");
    assert_eq!(cache.get(&key("nllb")), None);
}

#[test]
fn uids_that_are_no_numbers_count_as_zero() {
    let a = translation_key("a", "f", "x", "e", "s", "t");
    assert_eq!(a.2, 0);
    assert_eq!(translation_key("a", "f", "42", "e", "s", "t").2, 42);
    assert_eq!(translation_key("a", "f", "4294967296", "e", "s", "t").2, 0);
}

#[test]
fn the_engine_and_the_languages_decide() {
    let s = |t: &str| t.to_string();
    let work = |plain: &str, engine: &str, src: &str| {
        choose_work(s(plain), engine, s(src), "zho_Hans")
    };
    assert_eq!(work(" \n", "nllb", "eng_Latn"), Work::Keep(s(" \n")));
    assert_eq!(work(" \n", "google", "eng_Latn"), Work::Keep(s(" \n")));
    assert_eq!(work("x", "google", "zho_Hans"), Work::Google(s("x")));
    assert_eq!(work("x", "deeplx", "zho_Hans"), Work::DeepLx(s("x")));
    assert_eq!(work("x", "nllb", "zho_Hans"), Work::Keep(s("x")));
    assert_eq!(
        work("x", "nllb", "eng_Latn"),
        Work::Offline { plain: s("x"), src: s("eng_Latn") }
    );
    assert_eq!(
        work("x", "other", "eng_Latn"),
        Work::Offline { plain: s("x"), src: s("eng_Latn") }
    );
}

#[test]
fn a_mail_is_planned_by_its_text() {
    let raw = "Content-Type: text/plain; charset=utf-8\r\n\r\n\
Это предложение на русском языке для проверки.\r\n";
    let m = parse_message(raw.as_bytes()).unwrap();
    assert_eq!(
        plan_translation(&m, "nllb", "auto", "zho_Hans"),
        Work::Offline {
            plain: "Это предложение на русском языке для проверки.".to_string(),
            src: "rus_Cyrl".to_string(),
        }
    );
    assert!(matches!(plan_translation(&m, "nllb", "auto", "rus_Cyrl"), Work::Keep(_)));
    assert!(matches!(plan_translation(&m, "google", "auto", "rus_Cyrl"), Work::Google(_)));
}
