use dms_email_client::config::{Account, Config};
use dms_email_client::marking::{answer_mark_read, mark_read, ReadAll};
use dms_email_client::state::{notifier, DaemonState, MailInfo};

fn account(name: &str) -> Account {
    let mut a = Config::first().accounts.remove(0);
    a.name = name.to_string();
    a
}

fn mail(account: &str, folder: &str, uid: u32, seen: bool) -> MailInfo {
    MailInfo {
        account: account.to_string(),
        folder: folder.to_string(),
        uid,
        from: "f".to_string(),
        subject: "s".to_string(),
        date: "d".to_string(),
        seen,
    }
}

fn state(mails: Vec<MailInfo>) -> DaemonState {
    DaemonState { unread_mails: mails, ..DaemonState::default() }
}

fn seen(state: &DaemonState) -> Vec<bool> {
    state.unread_mails.iter().map(|m| m.seen).collect()
}

fn value(json: &str) -> serde_json::Value {
    serde_json::from_str(json).unwrap()
}

#[test]
fn a_mail_is_marked_at_the_first_account_of_its_name() {
    let list = vec![account("a"), account("b"), account("b")];
    assert_eq!(mark_read(&list, "b"), Ok(1));
    let reply = mark_read(&list, "c").unwrap_err();
    assert_eq!(value(&reply)["ok"].as_bool(), Some(false));
    assert_eq!(value(&reply)["error"].as_str(), Some("账户不存在"));
}

#[test]
fn a_marked_mail_stays_in_the_list() {
    let mut st = state(vec![
        mail("a", "INBOX", 1, false),
        mail("a", "INBOX", 2, false),
        mail("a", "Spam", 1, false),
        mail("b", "INBOX", 1, false),
    ]);
    let mut n = notifier();
    let reply = answer_mark_read(&mut st, &mut n, "a", "INBOX", "1", Ok(()));
    assert_eq!(reply, "{\"ok\":true}");
    assert_eq!(seen(&st), vec![true, false, false, false]);
    assert_eq!(n.version, 1);
    let reply = answer_mark_read(&mut st, &mut n, "a", "INBOX", "+2", Ok(()));
    assert_eq!(reply, "{\"ok\":true}");
    assert_eq!(seen(&st), vec![true, true, false, false]);
}

#[test]
fn a_uid_that_is_no_number_marks_nothing() {
    let mut st = state(vec![mail("a", "INBOX", 1, false)]);
    let mut n = notifier();
    answer_mark_read(&mut st, &mut n, "a", "INBOX", "1:*", Ok(()));
    assert_eq!(seen(&st), vec![false]);
    assert_eq!(n.version, 1);
}

#[test]
fn a_failure_marks_nothing() {
    let mut st = state(vec![mail("a", "INBOX", 1, false)]);
    let mut n = notifier();
    let reply = answer_mark_read(&mut st, &mut n, "a", "INBOX", "1", Err("lost".to_string()));
    assert_eq!(value(&reply)["error"].as_str(), Some("lost"));
    assert_eq!(seen(&st), vec![false]);
    assert_eq!(n.version, 0);
}

fn many() -> DaemonState {
    state(vec![
        mail("b", "Spam", 5, false),
        mail("a", "INBOX", 1, false),
        mail("b", "INBOX", 9, false),
        mail("b", "Spam", 3, false),
        mail("b", "INBOX", 7, true),
        mail("gone", "INBOX", 2, false),
    ])
}

fn plan(work: &mut ReadAll) -> Vec<(String, usize, Vec<(String, String)>)> {
    let mut out = Vec::new();
    let mut st = many();
    let mut n = notifier();
    while let Some(b) = work.next() {
        out.push((
            b.account.clone(),
            b.place,
            b.folders.iter().map(|f| (f.folder.clone(), f.set())).collect(),
        ));
        work.step(&mut st, &mut n, Ok(()));
    }
    out
}

#[test]
fn all_unread_mails_are_grouped_in_order() {
    let list = vec![account("b"), account("a")];
    let mut work = ReadAll::new(&list, &many(), "");
    let s = |t: &str| t.to_string();
    assert_eq!(
        plan(&mut work),
        vec![
            (s("a"), 1, vec![(s("INBOX"), s("1"))]),
            (s("b"), 0, vec![(s("INBOX"), s("9")), (s("Spam"), s("5,3"))]),
        ]
    );
}

#[test]
fn one_account_can_be_asked_for() {
    let list = vec![account("b"), account("a")];
    let mut work = ReadAll::new(&list, &many(), "a");
    assert_eq!(plan(&mut work).len(), 1);
    let mut work = ReadAll::new(&list, &many(), "nobody");
    assert!(plan(&mut work).is_empty());
}

#[test]
fn what_was_marked_is_counted_and_listed_as_read() {
    let list = vec![account("b"), account("a")];
    let mut st = many();
    let mut n = notifier();
    let mut work = ReadAll::new(&list, &st, "");
    while work.next().is_some() {
        work.step(&mut st, &mut n, Ok(()));
    }
    assert_eq!(work.reply(), "{\"marked\":4,\"ok\":true}");
    assert_eq!(seen(&st), vec![true, true, true, true, true, false]);
    assert_eq!(n.version, 2);
}

#[test]
fn errors_are_told_by_account() {
    let list = vec![account("b"), account("a")];
    let mut st = many();
    let mut n = notifier();
    let mut work = ReadAll::new(&list, &st, "");
    work.step(&mut st, &mut n, Err("x".to_string()));
    work.step(&mut st, &mut n, Err("y".to_string()));
    let reply = value(&work.reply());
    assert_eq!(reply["ok"].as_bool(), Some(false));
    assert_eq!(reply["marked"].as_u64(), Some(0));
    assert_eq!(reply["error"].as_str(), Some("a: x; b: y"));
    assert_eq!(seen(&st), seen(&many()));
    assert_eq!(n.version, 0);
}

#[test]
fn mails_of_accounts_that_fail_stay_unread() {
    let list = vec![account("b"), account("a")];
    let mut st = state(vec![
        mail("b", "INBOX", 1, false),
        mail("a", "INBOX", 1, false),
        mail("b", "INBOX", 1, false),
        mail("b", "Spam", 1, true),
        mail("gone", "INBOX", 1, false),
    ]);
    let mut n = notifier();
    let mut work = ReadAll::new(&list, &st, "");
    work.step(&mut st, &mut n, Err("x".to_string()));
    work.step(&mut st, &mut n, Ok(()));
    assert!(work.next().is_none());
    let reply = value(&work.reply());
    assert_eq!(reply["marked"].as_u64(), Some(2));
    assert_eq!(seen(&st), vec![true, false, true, true, false]);
}

#[test]
fn nothing_unread_is_nothing_marked() {
    let work = ReadAll::new(&[account("a")], &state(vec![mail("a", "f", 1, true)]), "");
    assert!(work.next().is_none());
    assert_eq!(work.reply(), "{\"marked\":0,\"ok\":true}");
}
